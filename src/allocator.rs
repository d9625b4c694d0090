use vstd::prelude::*;
use crate::uefi::EfiMemoryDescriptor;
use crate::uefi::EfiMemoryType;

verus! {

/// Whether `n` is a power of two.
pub open spec fn is_pow2(n: int) -> bool
    decreases n,
{
    if n <= 0 {
        false
    } else if n == 1 {
        true
    } else {
        n % 2 == 0 && is_pow2(n / 2)
    }
}

/// The smallest power of two that is at least `v` (1 for `v <= 1`).
pub open spec fn ceil_pow2(v: int) -> int
    decreases v,
{
    if v <= 1 {
        1
    } else {
        2 * ceil_pow2((v + 1) / 2)
    }
}

proof fn lemma_ceil_pow2(v: int)
    requires
        v >= 1,
    ensures
        is_pow2(ceil_pow2(v)),
        ceil_pow2(v) >= v,
        ceil_pow2(v) / 2 < v,
        ceil_pow2(v) >= 1,
    decreases v,
{
    if v > 1 {
        lemma_ceil_pow2((v + 1) / 2);
        let c = ceil_pow2((v + 1) / 2);
        assert(is_pow2(2 * c)) by {
            assert((2 * c) / 2 == c);
        }
    }
}

/// Of two powers of two, the smaller is at most half of the larger.
proof fn lemma_pow2_lt_half(p: int, q: int)
    requires
        is_pow2(p),
        is_pow2(q),
        p < q,
    ensures
        2 * p <= q,
    decreases q,
{
    if p > 1 {
        lemma_pow2_lt_half(p / 2, q / 2);
    }
}

proof fn lemma_ceil_pow2_unique(v: int, r: int)
    requires
        v >= 1,
        is_pow2(r),
        r >= v,
        r / 2 < v,
    ensures
        r == ceil_pow2(v),
{
    lemma_ceil_pow2(v);
    let c = ceil_pow2(v);
    if r < c {
        lemma_pow2_lt_half(r, c);
    } else if c < r {
        lemma_pow2_lt_half(c, r);
    }
}

/// Rounds `v` up to the nearest power of two.
///
/// Fails with "Out of range" when `v` is zero or when the result does not fit in a `usize`.
pub fn round_up_to_nearest_pow2(v: usize) -> (r: Result<usize, &'static str>)
    ensures
        r is Ok <==> 0 < v && ceil_pow2(v as int) <= usize::MAX,
        r is Ok ==> r->Ok_0 == ceil_pow2(v as int),
        r is Ok ==> is_pow2(r->Ok_0 as int) && r->Ok_0 >= v && r->Ok_0 / 2 < v,
{
    if v == 0 {
        return Err("Out of range");
    }
    proof {
        lemma_ceil_pow2(v as int);
    }
    let mut p: usize = 1;
    while p < v
        invariant
            0 < v,
            is_pow2(p as int),
            1 <= p,
            p == 1 || p / 2 < v,
            is_pow2(ceil_pow2(v as int)),
            ceil_pow2(v as int) >= v,
        decreases usize::MAX - p,
    {
        if p > usize::MAX / 2 {
            proof {
                lemma_pow2_lt_half(p as int, ceil_pow2(v as int));
            }
            return Err("Out of range");
        }
        assert(is_pow2(2 * p as int)) by {
            assert((2 * p as int) / 2 == p);
        }
        p = p * 2;
    }
    proof {
        lemma_ceil_pow2_unique(v as int, p as int);
    }
    Ok(p)
}

/// Size in bytes of a chunk header; a power of two, used as alignment floor and size quantum.
pub const HEADER_SIZE: usize = 32;

/// Size in bytes of a page of the memory map.
pub const PAGE_SIZE: usize = 4096;

proof fn lemma_pow2_32()
    ensures
        is_pow2(32),
{
    reveal_with_fuel(is_pow2, 7);
}

/// A power of two at least as large as another power of two is a multiple of it.
proof fn lemma_pow2_multiple(a: int, m: int)
    requires
        is_pow2(a),
        is_pow2(m),
        a >= m,
    ensures
        a % m == 0,
    decreases a,
{
    if a > m {
        lemma_pow2_lt_half(m, a);
        lemma_pow2_multiple(a / 2, m);
        let k = (a / 2) / m;
        vstd::arithmetic::div_mod::lemma_fundamental_div_mod(a / 2, m);
        assert(a / 2 == k * m);
        assert(a == (2 * k) * m) by (nonlinear_arith)
            requires
                a % 2 == 0,
                a / 2 == k * m,
        ;
        vstd::arithmetic::div_mod::lemma_mod_multiples_basic(2 * k, m);
    } else {
        vstd::arithmetic::div_mod::lemma_mod_self_0(a);
    }
}

/// A multiple of `a` is a multiple of every divisor of `a`.
proof fn lemma_mod_trans(x: int, a: int, m: int)
    requires
        x >= 0,
        a > 0,
        m > 0,
        x % a == 0,
        a % m == 0,
    ensures
        x % m == 0,
{
    let q = x / a;
    let k = a / m;
    vstd::arithmetic::div_mod::lemma_fundamental_div_mod(x, a);
    vstd::arithmetic::div_mod::lemma_fundamental_div_mod(a, m);
    assert(x == (q * k) * m) by (nonlinear_arith)
        requires
            x == a * q,
            a == m * k,
    ;
    vstd::arithmetic::div_mod::lemma_mod_multiples_basic(q * k, m);
}

/// A request for memory: a size in bytes and a power-of-two alignment.
#[derive(Clone, Copy, Debug, PartialEq, Eq, Structural)]
pub struct Layout {
    pub size: usize,
    pub align: usize,
}

impl Layout {
    /// The alignment is a power of two.
    pub open spec fn wf(&self) -> bool {
        is_pow2(self.align as int)
    }

    /// Makes a layout; `None` unless `align` is a power of two and `size`, rounded up to
    /// a multiple of `align`, does not exceed `isize::MAX`.
    pub fn from_size_align(size: usize, align: usize) -> (r: Option<Layout>)
        ensures
            r is Some <==> is_pow2(align as int) && size + (align - 1) <= isize::MAX,
            r is Some ==> r->Some_0.size == size && r->Some_0.align == align && r->Some_0.wf(),
    {
        if align == 0 {
            return None;
        }
        let mut p: usize = 1;
        while p < align
            invariant
                is_pow2(p as int),
                1 <= p,
                p == 1 || p / 2 < align,
                align > 0,
            decreases usize::MAX - p,
        {
            if p > usize::MAX / 2 {
                proof {
                    if is_pow2(align as int) {
                        lemma_pow2_lt_half(p as int, align as int);
                    }
                }
                return None;
            }
            assert(is_pow2(2 * p as int)) by {
                assert((2 * p as int) / 2 == p);
            }
            p = p * 2;
        }
        if p != align {
            proof {
                if is_pow2(align as int) {
                    if p / 2 < align {
                        lemma_pow2_lt_half(align as int, p as int);
                    }
                }
            }
            return None;
        }
        if size > isize::MAX as usize || align - 1 > isize::MAX as usize - size {
            return None;
        }
        Some(Layout { size, align })
    }

    pub fn size(&self) -> (r: usize)
        ensures
            r == self.size,
    {
        self.size
    }

    pub fn align(&self) -> (r: usize)
        ensures
            r == self.align,
    {
        self.align
    }
}

/// Metadata at the start of a chunk `[addr, addr + size)` of the heap.
///
/// The chain that links the headers is the order of the allocator's sequence of headers.
#[derive(Clone, Copy, Debug, PartialEq, Eq, Structural)]
pub struct Header {
    pub addr: usize,
    pub size: usize,
    pub is_allocated: bool,
}

impl Header {
    pub open spec fn end(&self) -> int {
        self.addr + self.size
    }

    /// Address and size are multiples of the header size, the chunk holds at least
    /// its header, and it lies within the address space.
    pub open spec fn wf(&self) -> bool {
        &&& self.addr as int % HEADER_SIZE as int == 0
        &&& self.size as int % HEADER_SIZE as int == 0
        &&& self.size >= HEADER_SIZE
        &&& self.end() <= usize::MAX
    }

    fn can_provide(&self, size: usize, align: usize) -> (r: bool)
        ensures
            r == (self.size >= size + 2 * HEADER_SIZE + align),
    {
        match size.checked_add(2 * HEADER_SIZE) {
            Some(s) => match s.checked_add(align) {
                Some(t) => self.size >= t,
                None => false,
            },
            None => false,
        }
    }

    fn is_allocated(&self) -> (r: bool)
        ensures
            r == self.is_allocated,
    {
        self.is_allocated
    }

    fn end_addr(&self) -> (r: usize)
        requires
            self.end() <= usize::MAX,
        ensures
            r == self.end(),
    {
        self.addr + self.size
    }

    /// Carves a chunk for `size` bytes aligned to `align` from the tail of this free
    /// chunk. Returns the payload address, the header of the carved chunk, and the
    /// header of the free padding behind it if one is needed; this header shrinks to
    /// what is left in front. Returns `None`, changing nothing, when the chunk is
    /// allocated, too small, or `size` cannot be rounded up.
    fn provide(&mut self, size: usize, align: usize) -> (r: Option<(usize, Header, Option<Header>)>)
        requires
            old(self).wf(),
            is_pow2(align as int),
        ensures
            r is Some <==> fits(*old(self), size as int, align as int),
            r is None ==> *final(self) == *old(self),
            r is Some ==> {
                let (p, c, pad) = r->Some_0;
                &&& p == carve_addr(*old(self), size as int, align as int)
                &&& c == carved(*old(self), size as int, align as int)
                &&& pad == padding_opt(*old(self), size as int, align as int)
                &&& *final(self) == shrunk(*old(self), size as int, align as int)
            },
    {
        proof {
            lemma_pow2_32();
        }
        let sz = if size == 0 {
            HEADER_SIZE
        } else {
            match round_up_to_nearest_pow2(size) {
                Ok(s) => if s < HEADER_SIZE {
                    HEADER_SIZE
                } else {
                    s
                },
                Err(_) => return None,
            }
        };
        let al = if align < HEADER_SIZE {
            HEADER_SIZE
        } else {
            align
        };
        assert(sz == norm_size(size as int) && al == norm_align(align as int));
        if self.is_allocated() || !self.can_provide(sz, al) {
            return None;
        }
        proof {
            lemma_carve(*self, size as int, align as int);
        }
        let end = self.end_addr();
        let tail = end - sz;
        let allocated_addr = tail - tail % al;
        let allocated = Header {
            addr: allocated_addr - HEADER_SIZE,
            size: sz + HEADER_SIZE,
            is_allocated: true,
        };
        let mut size_used = allocated.size;
        let allocated_end = allocated.end_addr();
        let pad = if allocated_end != end {
            let pad = Header { addr: allocated_end, size: end - allocated_end, is_allocated: false };
            size_used = size_used + pad.size;
            Some(pad)
        } else {
            None
        };
        self.size = self.size - size_used;
        Some((allocated_addr, allocated, pad))
    }
}


/// The size that a request of `size` bytes is served with: rounded up to a power
/// of two, and at least one header.
pub open spec fn norm_size(size: int) -> int {
    if size == 0 || ceil_pow2(size) < HEADER_SIZE {
        HEADER_SIZE as int
    } else {
        ceil_pow2(size)
    }
}

/// The alignment that a request of alignment `align` is served with.
pub open spec fn norm_align(align: int) -> int {
    if align < HEADER_SIZE {
        HEADER_SIZE as int
    } else {
        align
    }
}

/// Rounding `size` up to a power of two does not overflow.
pub open spec fn size_ok(size: int) -> bool {
    size == 0 || ceil_pow2(size) <= usize::MAX
}

/// Chunk `h` serves a request of `size` bytes aligned to `align`.
pub open spec fn fits(h: Header, size: int, align: int) -> bool {
    &&& !h.is_allocated
    &&& size_ok(size)
    &&& h.size >= norm_size(size) + 2 * HEADER_SIZE + norm_align(align)
}

/// The payload address carved from the tail of `h`: the highest aligned address
/// that leaves room for the normalized size before the end of `h`.
pub open spec fn carve_addr(h: Header, size: int, align: int) -> int {
    let t = h.end() - norm_size(size);
    t - t % norm_align(align)
}

/// The header placed right before the carved payload.
pub open spec fn carved(h: Header, size: int, align: int) -> Header {
    Header {
        addr: (carve_addr(h, size, align) - HEADER_SIZE) as usize,
        size: (norm_size(size) + HEADER_SIZE) as usize,
        is_allocated: true,
    }
}

/// The free chunk between the carved chunk and the end of `h` (of size zero when none is needed).
pub open spec fn padding(h: Header, size: int, align: int) -> Header {
    Header {
        addr: (carve_addr(h, size, align) + norm_size(size)) as usize,
        size: (h.end() - carve_addr(h, size, align) - norm_size(size)) as usize,
        is_allocated: false,
    }
}

/// What is left of `h` in front of the carved chunk.
pub open spec fn shrunk(h: Header, size: int, align: int) -> Header {
    Header {
        addr: h.addr,
        size: (carve_addr(h, size, align) - HEADER_SIZE - h.addr) as usize,
        is_allocated: h.is_allocated,
    }
}

/// The padding header, where one is needed.
pub open spec fn padding_opt(h: Header, size: int, align: int) -> Option<Header> {
    if padding(h, size, align).size == 0 {
        None
    } else {
        Some(padding(h, size, align))
    }
}

/// The headers that replace `h` in the chain once a request is carved from it.
pub open spec fn split(h: Header, size: int, align: int) -> Seq<Header> {
    match padding_opt(h, size, align) {
        None => seq![shrunk(h, size, align), carved(h, size, align)],
        Some(p) => seq![shrunk(h, size, align), carved(h, size, align), p],
    }
}

/// Both normalized quantities are powers of two and multiples of the header size.
proof fn lemma_norm(size: int, align: int)
    requires
        size >= 0,
        size_ok(size),
        is_pow2(align),
    ensures
        is_pow2(norm_size(size)),
        is_pow2(norm_align(align)),
        norm_size(size) % HEADER_SIZE as int == 0,
        norm_align(align) % HEADER_SIZE as int == 0,
        norm_size(size) >= size,
        norm_size(size) >= HEADER_SIZE,
        norm_align(align) >= align,
{
    lemma_pow2_32();
    if size > 0 {
        lemma_ceil_pow2(size);
    }
    lemma_pow2_multiple(norm_size(size), 32);
    lemma_pow2_multiple(norm_align(align), 32);
}

/// Facts on carving a request from a chunk that fits it.
proof fn lemma_carve(h: Header, size: int, align: int)
    requires
        h.wf(),
        size >= 0,
        is_pow2(align),
        fits(h, size, align),
    ensures
        carve_addr(h, size, align) % norm_align(align) == 0,
        carve_addr(h, size, align) % align == 0,
        carve_addr(h, size, align) % HEADER_SIZE as int == 0,
        carve_addr(h, size, align) >= h.addr + 2 * HEADER_SIZE,
        carve_addr(h, size, align) + norm_size(size) <= h.end(),
        shrunk(h, size, align).wf(),
        carved(h, size, align).wf(),
        padding(h, size, align).size == 0 || padding(h, size, align).wf(),
        shrunk(h, size, align).end() == carved(h, size, align).addr,
        carved(h, size, align).end() == padding(h, size, align).addr,
        padding(h, size, align).end() == h.end(),
        carved(h, size, align).addr + HEADER_SIZE == carve_addr(h, size, align),
        carved(h, size, align).end() >= carve_addr(h, size, align) + size,
{
    lemma_norm(size, align);
    let ns = norm_size(size);
    let na = norm_align(align);
    let t = h.end() - ns;
    let p = carve_addr(h, size, align);
    vstd::arithmetic::div_mod::lemma_fundamental_div_mod(t, na);
    vstd::arithmetic::div_mod::lemma_mod_multiples_basic(t / na, na);
    assert(p == na * (t / na));
    assert(p % na == 0) by {
        vstd::arithmetic::div_mod::lemma_mod_multiples_basic(t / na, na);
        assert(na * (t / na) == (t / na) * na) by (nonlinear_arith);
    }
    lemma_pow2_multiple(na, align);
    lemma_mod_trans(p, na, align);
    lemma_mod_trans(p, na, HEADER_SIZE as int);
    assert(p > h.addr + 2 * HEADER_SIZE);
    assert((h.end() - p - ns) % HEADER_SIZE as int == 0) by {
        vstd::arithmetic::div_mod::lemma_fundamental_div_mod(h.addr as int, 32);
        vstd::arithmetic::div_mod::lemma_fundamental_div_mod(h.size as int, 32);
        vstd::arithmetic::div_mod::lemma_fundamental_div_mod(p, 32);
        vstd::arithmetic::div_mod::lemma_fundamental_div_mod(ns, 32);
        let e = h.end() - p - ns;
        assert(e == 32 * (h.addr as int / 32 + h.size as int / 32 - p / 32 - ns / 32));
        vstd::arithmetic::div_mod::lemma_mod_multiples_basic(
            h.addr as int / 32 + h.size as int / 32 - p / 32 - ns / 32,
            32,
        );
    }
    assert((p - HEADER_SIZE - h.addr) % HEADER_SIZE as int == 0) by {
        vstd::arithmetic::div_mod::lemma_fundamental_div_mod(h.addr as int, 32);
        vstd::arithmetic::div_mod::lemma_fundamental_div_mod(p, 32);
        vstd::arithmetic::div_mod::lemma_mod_multiples_basic(p / 32 - 1 - h.addr as int / 32, 32);
    }
    assert((p - HEADER_SIZE) % HEADER_SIZE as int == 0) by {
        vstd::arithmetic::div_mod::lemma_fundamental_div_mod(p, 32);
        vstd::arithmetic::div_mod::lemma_mod_multiples_basic(p / 32 - 1, 32);
    }
    assert((ns + HEADER_SIZE) % HEADER_SIZE as int == 0) by {
        vstd::arithmetic::div_mod::lemma_fundamental_div_mod(ns, 32);
        vstd::arithmetic::div_mod::lemma_mod_multiples_basic(ns / 32 + 1, 32);
    }
    assert((p + ns) % HEADER_SIZE as int == 0) by {
        vstd::arithmetic::div_mod::lemma_fundamental_div_mod(ns, 32);
        vstd::arithmetic::div_mod::lemma_fundamental_div_mod(p, 32);
        vstd::arithmetic::div_mod::lemma_mod_multiples_basic(p / 32 + ns / 32, 32);
    }
}

/// The byte ranges of two chunks do not overlap.
pub open spec fn disjoint(a: Header, b: Header) -> bool {
    a.end() <= b.addr || b.end() <= a.addr
}

/// Every header is well formed and no two chunks overlap.
pub open spec fn chain_wf(c: Seq<Header>) -> bool {
    &&& forall|i: int| 0 <= i < c.len() ==> (#[trigger] c[i]).wf()
    &&& forall|i: int, j: int|
        0 <= i < c.len() && 0 <= j < c.len() && i != j ==> disjoint(#[trigger] c[i], #[trigger] c[j])
}

/// The byte range of `a` lies within that of `b`.
pub open spec fn within(a: Header, b: Header) -> bool {
    b.addr <= a.addr && a.end() <= b.end()
}

/// The chain once a request is carved from its `i`-th chunk: the split pieces take
/// its place, in the order shrunk chunk, carved chunk, padding.
pub open spec fn splice(c: Seq<Header>, i: int, size: int, align: int) -> Seq<Header> {
    c.take(i) + split(c[i], size, align) + c.skip(i + 1)
}

/// Chunk `i` is the first in the chain to serve the request.
pub open spec fn first_fit(c: Seq<Header>, i: int, size: int, align: int) -> bool {
    &&& 0 <= i < c.len()
    &&& fits(c[i], size, align)
    &&& forall|j: int| 0 <= j < i ==> !fits(#[trigger] c[j], size, align)
}

/// `p` is the payload address of an allocated chunk with room for `size` bytes.
pub open spec fn is_live(c: Seq<Header>, p: int, size: int) -> bool {
    exists|i: int|
        0 <= i < c.len() && (#[trigger] c[i]).is_allocated && c[i].addr + HEADER_SIZE == p && p
            + size <= c[i].end()
}

/// The chain once the payload at `p` is freed: the header right before `p` is marked free.
pub open spec fn freed(c: Seq<Header>, p: int) -> Seq<Header> {
    c.map_values(
        |h: Header|
            if h.addr + HEADER_SIZE == p {
                Header { addr: h.addr, size: h.size, is_allocated: false }
            } else {
                h
            },
    )
}

proof fn lemma_splice_wf(c: Seq<Header>, i: int, size: int, align: int)
    requires
        chain_wf(c),
        0 <= i < c.len(),
        size >= 0,
        is_pow2(align),
        fits(c[i], size, align),
    ensures
        chain_wf(splice(c, i, size, align)),
        splice(c, i, size, align)[i + 1] == carved(c[i], size, align),
        splice(c, i, size, align).len() == c.len() + split(c[i], size, align).len() - 1,
{
    let h = c[i];
    lemma_carve(h, size, align);
    let sp = split(h, size, align);
    let n = splice(c, i, size, align);
    let m = sp.len();
    assert(n.len() == c.len() + m - 1);
    assert(forall|k: int| 0 <= k < m ==> (#[trigger] sp[k]).wf() && within(sp[k], h));
    assert forall|k: int| 0 <= k < n.len() implies (#[trigger] n[k]).wf() && within(
        n[k],
        c[if k < i {
            k
        } else if k < i + m {
            i
        } else {
            k - m + 1
        }],
    ) by {
        if k < i {
            assert(n[k] == c[k]);
        } else if k < i + m {
            assert(n[k] == sp[k - i]);
        } else {
            assert(n[k] == c[k - m + 1]);
        }
    }
    assert forall|k: int, l: int|
        0 <= k < n.len() && 0 <= l < n.len() && k != l implies disjoint(
        #[trigger] n[k],
        #[trigger] n[l],
    ) by {
        let ok = if k < i {
            k
        } else if k < i + m {
            i
        } else {
            k - m + 1
        };
        let ol = if l < i {
            l
        } else if l < i + m {
            i
        } else {
            l - m + 1
        };
        assert(within(n[k], c[ok]));
        assert(within(n[l], c[ol]));
        if ok != ol {
            assert(disjoint(c[ok], c[ol]));
        } else {
            assert(n[k] == sp[k - i]);
            assert(n[l] == sp[l - i]);
        }
    }
    assert(n[i + 1] == sp[1]);
}

/// Two chunks of a well-formed chain at the same address are the same chunk.
proof fn lemma_unique_addr(c: Seq<Header>, i: int, j: int)
    requires
        chain_wf(c),
        0 <= i < c.len(),
        0 <= j < c.len(),
        c[i].addr == c[j].addr,
    ensures
        i == j,
{
    if i != j {
        assert(disjoint(c[i], c[j]));
    }
}

/// The bytes a descriptor covers, from its start: `[start, start + region_len(d))`.
pub open spec fn region_len(d: EfiMemoryDescriptor) -> int {
    d.number_of_pages * PAGE_SIZE
}

/// Where the free chunk of a descriptor starts: its first page is skipped at address 0.
pub open spec fn free_start(d: EfiMemoryDescriptor) -> int {
    if d.physical_start == 0 {
        PAGE_SIZE as int
    } else {
        d.physical_start as int
    }
}

/// The size of the free chunk of a descriptor.
pub open spec fn free_len(d: EfiMemoryDescriptor) -> int {
    if d.physical_start == 0 {
        if region_len(d) >= PAGE_SIZE {
            region_len(d) - PAGE_SIZE
        } else {
            0
        }
    } else {
        region_len(d)
    }
}

/// The descriptor contributes a chunk: it is conventional memory with more than a
/// page left once address 0 is excluded.
pub open spec fn admits(d: EfiMemoryDescriptor) -> bool {
    d.memory_type == EfiMemoryType::CONVENTIONAL_MEMORY && free_len(d) > PAGE_SIZE
}

/// The free chunk a descriptor contributes.
pub open spec fn free_header(d: EfiMemoryDescriptor) -> Header {
    Header { addr: free_start(d) as usize, size: free_len(d) as usize, is_allocated: false }
}

/// The descriptor is page aligned and lies within the address space.
pub open spec fn desc_ok(d: EfiMemoryDescriptor) -> bool {
    d.physical_start as int % PAGE_SIZE as int == 0 && d.physical_start + region_len(d) <= usize::MAX
}

/// The region of the descriptor does not overlap chunk `h`.
pub open spec fn desc_disjoint(d: EfiMemoryDescriptor, h: Header) -> bool {
    h.end() <= d.physical_start || d.physical_start + region_len(d) <= h.addr
}

/// The regions of two descriptors do not overlap.
pub open spec fn descs_disjoint(a: EfiMemoryDescriptor, b: EfiMemoryDescriptor) -> bool {
    a.physical_start + region_len(a) <= b.physical_start || b.physical_start + region_len(b)
        <= a.physical_start
}

/// The chain once descriptor `d` is taken in: its chunk, if any, becomes the head.
pub open spec fn added(c: Seq<Header>, d: EfiMemoryDescriptor) -> Seq<Header> {
    if admits(d) {
        seq![free_header(d)] + c
    } else {
        c
    }
}

/// The chain once the descriptors of `m` are taken in, in order.
pub open spec fn after_init(c: Seq<Header>, m: Seq<EfiMemoryDescriptor>) -> Seq<Header>
    decreases m.len(),
{
    if m.len() == 0 {
        c
    } else {
        added(after_init(c, m.drop_last()), m.last())
    }
}

/// The conventional descriptors of `m` may seed a chain `c`: each is page aligned,
/// lies within the address space, and overlaps neither a chunk of `c` nor another one.
pub open spec fn map_ok(c: Seq<Header>, m: Seq<EfiMemoryDescriptor>) -> bool {
    &&& forall|j: int|
        0 <= j < m.len() && (#[trigger] m[j]).memory_type == EfiMemoryType::CONVENTIONAL_MEMORY
            ==> desc_ok(m[j])
    &&& forall|j: int, k: int|
        0 <= j < m.len() && 0 <= k < c.len() && (#[trigger] m[j]).memory_type
            == EfiMemoryType::CONVENTIONAL_MEMORY ==> desc_disjoint(m[j], #[trigger] c[k])
    &&& forall|j: int, k: int|
        0 <= j < m.len() && 0 <= k < m.len() && j != k && (#[trigger] m[j]).memory_type
            == EfiMemoryType::CONVENTIONAL_MEMORY && (#[trigger] m[k]).memory_type
            == EfiMemoryType::CONVENTIONAL_MEMORY ==> descs_disjoint(m[j], m[k])
}

proof fn lemma_free_header(d: EfiMemoryDescriptor)
    requires
        desc_ok(d),
        admits(d),
    ensures
        free_header(d).wf(),
        free_header(d).addr == free_start(d),
        free_header(d).size == free_len(d),
        d.physical_start <= free_header(d).addr,
        free_header(d).end() <= d.physical_start + region_len(d),
{
    let n = d.number_of_pages as int;
    assert(region_len(d) == n * 4096);
    assert((n * 4096) % 32 == 0 && (n * 4096 - 4096) % 32 == 0) by {
        vstd::arithmetic::div_mod::lemma_mod_multiples_basic(n * 128, 32);
        vstd::arithmetic::div_mod::lemma_mod_multiples_basic(n * 128 - 128, 32);
        assert(n * 4096 == (n * 128) * 32) by (nonlinear_arith);
    }
    assert(d.physical_start as int % 32 == 0) by {
        lemma_mod_trans(d.physical_start as int, 4096, 32);
    }
}

/// A first-fit heap allocator over a chain of chunks seeded from a memory map.
pub struct FirstFitAllocator {
    chunks: Vec<Header>,
}

impl View for FirstFitAllocator {
    type V = Seq<Header>;

    closed spec fn view(&self) -> Seq<Header> {
        self.chunks@
    }
}

impl FirstFitAllocator {
    /// The chain is well formed: no two chunks overlap.
    pub open spec fn wf(&self) -> bool {
        chain_wf(self@)
    }

    /// An allocator with an empty chain.
    pub fn new() -> (r: Self)
        ensures
            r@ == Seq::<Header>::empty(),
            r.wf(),
    {
        FirstFitAllocator { chunks: Vec::new() }
    }

    /// Serves `layout` from the first chunk of the chain that fits it; returns the
    /// payload address, or 0 when no chunk fits.
    pub fn alloc_with_options(&mut self, layout: Layout) -> (r: usize)
        requires
            old(self).wf(),
            layout.wf(),
        ensures
            final(self).wf(),
            r == 0 <==> forall|i: int|
                0 <= i < old(self)@.len() ==> !fits(
                    #[trigger] old(self)@[i],
                    layout.size as int,
                    layout.align as int,
                ),
            r == 0 ==> final(self)@ == old(self)@,
            r != 0 ==> exists|i: int|
                first_fit(old(self)@, i, layout.size as int, layout.align as int) && r == carve_addr(
                    old(self)@[i],
                    layout.size as int,
                    layout.align as int,
                ) && final(self)@ == splice(
                    old(self)@,
                    i,
                    layout.size as int,
                    layout.align as int,
                ),
            r != 0 ==> r as int % norm_align(layout.align as int) == 0,
            r != 0 ==> r as int % layout.align as int == 0,
            r != 0 ==> is_live(final(self)@, r as int, layout.size as int),
    {
        let ghost size = layout.size as int;
        let ghost align = layout.align as int;
        let mut i: usize = 0;
        while i < self.chunks.len()
            invariant
                self@ == old(self)@,
                chain_wf(self@),
                layout.wf(),
                size == layout.size,
                align == layout.align,
                i <= self@.len(),
                forall|j: int| 0 <= j < i ==> !fits(#[trigger] self@[j], size, align),
            decreases self@.len() - i,
        {
            let mut h = self.chunks[i];
            assert(h.wf());
            match h.provide(layout.size, layout.align) {
                Some((p, c, pad)) => {
                    proof {
                        lemma_splice_wf(self@, i as int, size, align);
                        lemma_carve(self@[i as int], size, align);
                    }
                    self.chunks[i] = h;
                    self.chunks.insert(i + 1, c);
                    match pad {
                        Some(q) => {
                            let n = self.chunks.len();
                            assert(i + 1 < n);
                            self.chunks.insert(i + 2, q);
                        },
                        None => {},
                    }
                    assert(self@ =~= splice(old(self)@, i as int, size, align));
                    assert(first_fit(old(self)@, i as int, size, align));
                    assert(self@[i + 1] == c);
                    return p;
                },
                None => {},
            }
            i = i + 1;
        }
        0
    }

    /// Marks the chunk whose payload starts at `ptr` as free; its size and place in
    /// the chain stay as they are. Nothing changes when no header precedes `ptr`.
    pub fn dealloc(&mut self, ptr: usize, _layout: Layout)
        requires
            old(self).wf(),
        ensures
            final(self).wf(),
            final(self)@ == freed(old(self)@, ptr as int),
            forall|k: int|
                0 <= k < final(self)@.len() && #[trigger] final(self)@[k].addr + HEADER_SIZE == ptr
                    ==> !final(self)@[k].is_allocated,
    {
        if ptr < HEADER_SIZE {
            assert(self@ =~= freed(old(self)@, ptr as int));
            return ;
        }
        let addr = ptr - HEADER_SIZE;
        let mut i: usize = 0;
        while i < self.chunks.len()
            invariant
                self@ == old(self)@,
                chain_wf(self@),
                addr + HEADER_SIZE == ptr,
                i <= self@.len(),
                forall|j: int| 0 <= j < i ==> (#[trigger] self@[j]).addr != addr,
            decreases self@.len() - i,
        {
            let h = self.chunks[i];
            if h.addr == addr {
                proof {
                    assert forall|j: int| 0 <= j < self@.len() && j != i implies (
                    #[trigger] self@[j]).addr != addr by {
                        if self@[j].addr == addr {
                            lemma_unique_addr(self@, i as int, j);
                        }
                    }
                }
                self.chunks[i] = Header { addr: h.addr, size: h.size, is_allocated: false };
                proof {
                    assert(self@ =~= freed(old(self)@, ptr as int));
                    assert forall|j: int, k: int|
                        0 <= j < self@.len() && 0 <= k < self@.len() && j != k implies disjoint(
                        #[trigger] self@[j],
                        #[trigger] self@[k],
                    ) by {
                        assert(disjoint(old(self)@[j], old(self)@[k]));
                    }
                    assert forall|j: int| 0 <= j < self@.len() implies (#[trigger] self@[j]).wf() by {
                        assert(old(self)@[j].wf());
                    }
                }
                return ;
            }
            i = i + 1;
        }
        assert(self@ =~= freed(old(self)@, ptr as int));
    }

    /// Takes in the conventional-memory descriptors of `memory_map`, in order: each one
    /// with more than a page outside address 0 becomes a free chunk at the head of the chain.
    pub fn init_with_mmap(&mut self, memory_map: &[EfiMemoryDescriptor])
        requires
            old(self).wf(),
            map_ok(old(self)@, memory_map@),
        ensures
            final(self).wf(),
            final(self)@ == after_init(old(self)@, memory_map@),
    {
        let mut i: usize = 0;
        while i < memory_map.len()
            invariant
                chain_wf(self@),
                map_ok(old(self)@, memory_map@),
                i <= memory_map@.len(),
                self@ == after_init(old(self)@, memory_map@.take(i as int)),
                forall|j: int, k: int|
                    i <= j < memory_map@.len() && 0 <= k < self@.len() && (
                    #[trigger] memory_map@[j]).memory_type == EfiMemoryType::CONVENTIONAL_MEMORY
                        ==> desc_disjoint(memory_map@[j], #[trigger] self@[k]),
            decreases memory_map@.len() - i,
        {
            let e = &memory_map[i];
            let ghost before = self@;
            if e.memory_type() == EfiMemoryType::CONVENTIONAL_MEMORY {
                self.add_free_from_descriptor(e);
            }
            proof {
                let m = memory_map@;
                assert(m.take(i + 1).drop_last() =~= m.take(i as int));
                assert(m.take(i + 1).last() == m[i as int]);
                assert(self@ == added(before, m[i as int]));
                assert forall|j: int, k: int|
                    i + 1 <= j < m.len() && 0 <= k < self@.len() && (#[trigger] m[j]).memory_type
                        == EfiMemoryType::CONVENTIONAL_MEMORY implies desc_disjoint(
                    m[j],
                    #[trigger] self@[k],
                ) by {
                    if admits(m[i as int]) {
                        if k == 0 {
                            lemma_free_header(m[i as int]);
                            assert(descs_disjoint(m[j], m[i as int]));
                        } else {
                            assert(self@[k] == before[k - 1]);
                        }
                    }
                }
            }
            i = i + 1;
        }
        assert(memory_map@.take(memory_map@.len() as int) =~= memory_map@);
    }

    fn add_free_from_descriptor(&mut self, desc: &EfiMemoryDescriptor)
        requires
            chain_wf(old(self)@),
            desc_ok(*desc),
            desc.memory_type == EfiMemoryType::CONVENTIONAL_MEMORY,
            forall|k: int| 0 <= k < old(self)@.len() ==> desc_disjoint(*desc, #[trigger] old(self)@[k]),
        ensures
            chain_wf(final(self)@),
            final(self)@ == added(old(self)@, *desc),
    {
        let mut start_addr = desc.physical_start() as usize;
        let mut size = desc.number_of_pages() as usize * PAGE_SIZE;
        if start_addr == 0 {
            start_addr = start_addr + PAGE_SIZE;
            size = size.saturating_sub(PAGE_SIZE);
        }
        if size <= PAGE_SIZE {
            return ;
        }
        let header = Header { addr: start_addr, size, is_allocated: false };
        proof {
            lemma_free_header(*desc);
            assert(header == free_header(*desc));
        }
        self.chunks.insert(0, header);
        proof {
            let c = self@;
            assert(c =~= added(old(self)@, *desc));
            assert forall|j: int, k: int|
                0 <= j < c.len() && 0 <= k < c.len() && j != k implies disjoint(
                #[trigger] c[j],
                #[trigger] c[k],
            ) by {
                if j == 0 {
                    assert(desc_disjoint(*desc, old(self)@[k - 1]));
                } else if k == 0 {
                    assert(desc_disjoint(*desc, old(self)@[j - 1]));
                } else {
                    assert(disjoint(old(self)@[j - 1], old(self)@[k - 1]));
                }
            }
            assert forall|j: int| 0 <= j < c.len() implies (#[trigger] c[j]).wf() by {
                if j > 0 {
                    assert(c[j] == old(self)@[j - 1]);
                }
            }
        }
    }
    /// Whether the chunk whose payload starts at `ptr` is allocated; `None` when no
    /// header of the chain precedes `ptr`.
    pub fn is_allocated_at(&self, ptr: usize) -> (r: Option<bool>)
        requires
            self.wf(),
        ensures
            r is None <==> forall|k: int|
                0 <= k < self@.len() ==> #[trigger] self@[k].addr + HEADER_SIZE != ptr,
            r is Some ==> exists|k: int|
                0 <= k < self@.len() && #[trigger] self@[k].addr + HEADER_SIZE == ptr
                    && self@[k].is_allocated == r->Some_0,
    {
        if ptr < HEADER_SIZE {
            return None;
        }
        let mut i: usize = 0;
        while i < self.chunks.len()
            invariant
                i <= self@.len(),
                ptr >= HEADER_SIZE,
                forall|j: int| 0 <= j < i ==> #[trigger] self@[j].addr + HEADER_SIZE != ptr,
            decreases self@.len() - i,
        {
            if self.chunks[i].addr == ptr - HEADER_SIZE {
                return Some(self.chunks[i].is_allocated);
            }
            i = i + 1;
        }
        None
    }
}

/// Two live allocations at different addresses occupy disjoint byte ranges.
pub proof fn lemma_live_allocations_disjoint(c: Seq<Header>, p: int, s: int, q: int, t: int)
    requires
        chain_wf(c),
        is_live(c, p, s),
        is_live(c, q, t),
        p != q,
        s >= 0,
        t >= 0,
    ensures
        p + s <= q || q + t <= p,
{
    let i = choose|i: int|
        0 <= i < c.len() && (#[trigger] c[i]).is_allocated && c[i].addr + HEADER_SIZE == p && p + s
            <= c[i].end();
    let j = choose|j: int|
        0 <= j < c.len() && (#[trigger] c[j]).is_allocated && c[j].addr + HEADER_SIZE == q && q + t
            <= c[j].end();
    assert(i != j);
    assert(disjoint(c[i], c[j]));
}

/// A live allocation overlaps no header of the chain.
pub proof fn lemma_live_allocation_misses_headers(c: Seq<Header>, p: int, s: int, k: int)
    requires
        chain_wf(c),
        is_live(c, p, s),
        s >= 0,
        0 <= k < c.len(),
    ensures
        p + s <= c[k].addr || c[k].addr + HEADER_SIZE <= p,
{
    let i = choose|i: int|
        0 <= i < c.len() && (#[trigger] c[i]).is_allocated && c[i].addr + HEADER_SIZE == p && p + s
            <= c[i].end();
    if i != k {
        assert(disjoint(c[i], c[k]));
        assert(c[k].wf());
    }
}

/// Freeing a live allocation marks its header free, so it is no longer live, and
/// leaves every other live allocation live and the chain well formed.
pub proof fn lemma_free_round_trip(c: Seq<Header>, p: int, s: int)
    requires
        chain_wf(c),
        is_live(c, p, s),
    ensures
        chain_wf(freed(c, p)),
        freed(c, p).len() == c.len(),
        !is_live(freed(c, p), p, s),
        forall|q: int, t: int| q != p && is_live(c, q, t) ==> is_live(freed(c, p), q, t),
{
    let f = freed(c, p);
    assert forall|i: int, j: int|
        0 <= i < f.len() && 0 <= j < f.len() && i != j implies disjoint(
        #[trigger] f[i],
        #[trigger] f[j],
    ) by {
        assert(disjoint(c[i], c[j]));
    }
    assert forall|i: int| 0 <= i < f.len() implies (#[trigger] f[i]).wf() by {
        assert(c[i].wf());
    }
    assert forall|q: int, t: int| q != p && is_live(c, q, t) implies is_live(f, q, t) by {
        let i = choose|i: int|
            0 <= i < c.len() && (#[trigger] c[i]).is_allocated && c[i].addr + HEADER_SIZE == q && q
                + t <= c[i].end();
        assert(f[i] == c[i]);
    }
}

/// Carving a request from a free chunk leaves every live allocation live.
pub proof fn lemma_alloc_keeps_live(c: Seq<Header>, i: int, size: int, align: int, q: int, t: int)
    requires
        chain_wf(c),
        0 <= i < c.len(),
        size >= 0,
        is_pow2(align),
        fits(c[i], size, align),
        is_live(c, q, t),
    ensures
        is_live(splice(c, i, size, align), q, t),
{
    let j = choose|j: int|
        0 <= j < c.len() && (#[trigger] c[j]).is_allocated && c[j].addr + HEADER_SIZE == q && q + t
            <= c[j].end();
    let n = splice(c, i, size, align);
    let m = split(c[i], size, align).len();
    lemma_splice_wf(c, i, size, align);
    if j < i {
        assert(n[j] == c[j]);
    } else {
        assert(j != i);
        assert(n[j + m - 1] == c[j]);
    }
}

} // verus!
