//! Physical memory and the two-level page-table manager.
//!
//! Physical memory is modelled as [`PhysMem`]: a single contiguous
//! free-memory region, word-addressable, with the bump allocator's
//! monotone cursor.  Page tables live inside this region, exactly as
//! on the real machine: the mapper reads and writes table entries as
//! 32-bit words at physical addresses, and a page-table walk is a pure
//! function of the memory contents.

use vstd::prelude::*;

use crate::constants::{NUM_PTE, PAGE_SIZE, PAGE_V};
use crate::error::KernelError;

verus! {

/// True when `a` is page-aligned.
pub open spec fn page_aligned(a: u32) -> bool {
    a % PAGE_SIZE == 0
}

/// A page-aligned address is word-aligned.
pub proof fn lemma_page_aligned_word(a: u32)
    requires
        page_aligned(a),
    ensures
        a % 4 == 0,
{
    assert(a % 4 == 0) by (bit_vector)
        requires
            a % 4096 == 0,
    ;
}

/// The free physical-memory region and the bump allocator's cursor.
///
/// `words[i]` is the 32-bit word at physical address `base + 4 * i`.
/// The region covers `[base, end)`; addresses in `[base, next)` have
/// been handed out, addresses in `[next, end)` are still free.
pub struct PhysMem {
    /// First physical address of the free region; page-aligned.
    pub base: u32,
    /// Bump cursor: the next address the allocator will return.
    pub next: u32,
    /// One past the last physical address of the region; page-aligned.
    pub end: u32,
    /// The memory contents, one 32-bit word per 4 bytes of the region.
    pub words: Vec<u32>,
}

impl PhysMem {
    /// Structural invariant of the region and cursor.
    pub open spec fn wf(self) -> bool {
        &&& page_aligned(self.base)
        &&& page_aligned(self.next)
        &&& page_aligned(self.end)
        &&& self.base <= self.next <= self.end
        &&& self.words.len() == (self.end - self.base) / 4
    }

    /// True when `a` is the physical address of a word of the region.
    pub open spec fn word_addr(self, a: u32) -> bool {
        &&& self.base <= a < self.end
        &&& a % 4 == 0
    }

    /// The word stored at physical address `a`.
    pub open spec fn word(self, a: u32) -> u32 {
        self.words[(a - self.base) as int / 4]
    }

    /// Create a region covering `[base, end)`, all words zero, with
    /// the allocation cursor at `base`.
    pub fn new(base: u32, end: u32) -> (m: PhysMem)
        requires
            page_aligned(base),
            page_aligned(end),
            base <= end,
        ensures
            m.wf(),
            m.base == base,
            m.next == base,
            m.end == end,
            forall|a: u32| m.word_addr(a) ==> m.word(a) == 0,
    {
        let n_words: usize = ((end - base) / 4) as usize;
        let mut words: Vec<u32> = Vec::new();
        let mut i: usize = 0;
        while i < n_words
            invariant
                i <= n_words,
                words.len() == i,
                forall|k: int| 0 <= k < i ==> words[k] == 0,
            decreases n_words - i,
        {
            words.push(0);
            i = i + 1;
        }
        PhysMem { base, next: base, end, words }
    }

    /// Read the word at physical address `a`.
    pub fn read_word(&self, a: u32) -> (w: u32)
        requires
            self.wf(),
            self.word_addr(a),
        ensures
            w == self.word(a),
    {
        proof {
            assert((a - self.base) / 4 < (self.end - self.base) / 4);
        }
        self.words[((a - self.base) / 4) as usize]
    }

    /// Write the word at physical address `a`.
    #[verifier::rlimit(100)]
    pub fn write_word(&mut self, a: u32, w: u32)
        requires
            old(self).wf(),
            old(self).word_addr(a),
        ensures
            final(self).wf(),
            final(self).base == old(self).base,
            final(self).next == old(self).next,
            final(self).end == old(self).end,
            final(self).word(a) == w,
            forall|b: u32|
                old(self).word_addr(b) && b != a ==> final(self).word(b) == old(self).word(b),
    {
        proof {
            assert((a - self.base) / 4 < (self.end - self.base) / 4);
        }
        let i: usize = ((a - self.base) / 4) as usize;
        self.words[i] = w;
        proof {
            assert forall|b: u32| old(self).word_addr(b) && b != a implies final(self).word(b)
                == old(self).word(b) by {
                assert((b - self.base) as int / 4 != (a - self.base) as int / 4);
            }
        }
    }

    /// Hand out `n` contiguous, zero-filled, page-aligned pages,
    /// advancing the bump cursor.  Fails with `OutOfPhysicalMemory`
    /// when the advanced cursor would pass the region's end; the
    /// caller treats that as fatal.  There is no deallocation.
    #[verifier::rlimit(100)]
    pub fn alloc_pages(&mut self, n: u32) -> (r: Result<u32, KernelError>)
        requires
            old(self).wf(),
        ensures
            final(self).wf(),
            final(self).base == old(self).base,
            final(self).end == old(self).end,
            // Success exactly when the request fits in the free part.
            r is Ok <==> n * PAGE_SIZE <= old(self).end - old(self).next,
            r matches Err(e) ==> e == KernelError::OutOfPhysicalMemory && *final(self) == *old(self),
            r matches Ok(paddr) ==> {
                &&& paddr == old(self).next
                &&& final(self).next == old(self).next + n * PAGE_SIZE
                &&& page_aligned(paddr)
                // The returned pages read as zero.
                &&& forall|a: u32|
                    final(self).word_addr(a) && paddr <= a < final(self).next
                        ==> final(self).word(a) == 0
                // Nothing outside the returned pages changes.
                &&& forall|a: u32|
                    final(self).word_addr(a) && !(paddr <= a < final(self).next)
                        ==> final(self).word(a) == old(self).word(a)
            },
    {
        let free: u32 = self.end - self.next;
        if n > free / PAGE_SIZE {
            proof {
                assert(n * PAGE_SIZE > free) by (nonlinear_arith)
                    requires
                        n > free / PAGE_SIZE,
                        PAGE_SIZE == 4096,
                ;
            }
            return Err(KernelError::OutOfPhysicalMemory);
        }
        proof {
            assert(n * PAGE_SIZE <= free) by (nonlinear_arith)
                requires
                    n <= free / PAGE_SIZE,
                    PAGE_SIZE == 4096,
            ;
        }
        proof {
            lemma_page_aligned_word(self.base);
            lemma_page_aligned_word(self.end);
            lemma_page_aligned_word(self.next);
        }
        let paddr: u32 = self.next;
        let bytes: u32 = n * PAGE_SIZE;
        proof {
            assert(n * PAGE_SIZE % 4096 == 0) by (nonlinear_arith);
            lemma_page_aligned_word(bytes);
        }
        self.next = self.next + bytes;
        // Zero the handed-out pages, word by word.
        let w0: usize = ((paddr - self.base) / 4) as usize;
        let wn: usize = (bytes / 4) as usize;
        proof {
            assert(paddr - self.base == 4 * ((paddr - self.base) as int / 4));
            assert(bytes == 4 * (bytes as int / 4));
            assert(self.end - self.base == 4 * ((self.end - self.base) as int / 4));
            assert(w0 + wn <= self.words.len());
        }
        let mut j: usize = 0;
        while j < wn
            invariant
                j <= wn,
                w0 + wn <= self.words.len(),
                self.base == old(self).base,
                self.end == old(self).end,
                self.next == paddr + bytes,
                self.words.len() == old(self).words.len(),
                forall|k: int|
                    0 <= k < self.words.len() && !(w0 <= k < w0 + j) ==> self.words[k] == old(
                        self,
                    ).words[k],
                forall|k: int| w0 <= k < w0 + j ==> self.words[k] == 0,
            decreases wn - j,
        {
            self.words[w0 + j] = 0;
            j = j + 1;
        }
        proof {
            assert forall|a: u32| self.word_addr(a) implies {
                &&& (paddr <= a < paddr + bytes ==> self.word(a) == 0)
                &&& (!(paddr <= a < paddr + bytes) ==> self.word(a) == old(self).word(a))
            } by {
                let k = (a - self.base) as int / 4;
                assert(a - self.base == 4 * k);
                assert(paddr - self.base == 4 * (w0 as int));
                assert(bytes == 4 * (wn as int));
                assert(paddr <= a < paddr + bytes <==> w0 <= k < w0 + wn);
            }
            assert(page_aligned(self.next)) by (nonlinear_arith)
                requires
                    self.next == paddr + n * PAGE_SIZE,
                    page_aligned(paddr),
                    PAGE_SIZE == 4096,
                    paddr + n * PAGE_SIZE <= u32::MAX,
            ;
        }
        Ok(paddr)
    }
}


/// Outer-table index of a virtual address: bits 31 down to 22.
pub open spec fn vpn1(v: u32) -> u32 {
    (v >> 22) & 0x3ff
}

/// Inner-table index of a virtual address: bits 21 down to 12.
pub open spec fn vpn0(v: u32) -> u32 {
    (v >> 12) & 0x3ff
}

/// True when a table entry's valid bit is set.
pub open spec fn pte_valid(e: u32) -> bool {
    e & PAGE_V == PAGE_V
}

/// Physical page number stored in a table entry: bits 31 down to 10.
pub open spec fn pte_ppn(e: u32) -> u32 {
    e >> 10
}

/// Flag bits of a table entry: bits 9 down to 0.
pub open spec fn pte_flags(e: u32) -> u32 {
    e & 0x3ff
}

/// Physical address a non-leaf entry points to, as unbounded math.
pub open spec fn target_of(e: u32) -> int {
    pte_ppn(e) * PAGE_SIZE
}

/// Physical address of the outer entry with index `i` under `root`.
pub open spec fn outer_addr(root: u32, i: int) -> u32 {
    (root + 4 * i) as u32
}

/// The outer entry with index `i` of the table rooted at `root`.
pub open spec fn outer_entry(m: PhysMem, root: u32, i: int) -> u32 {
    m.word(outer_addr(root, i))
}

/// Physical address of entry `k` of the inner table the outer entry
/// `e1` points to.
pub open spec fn inner_addr(e1: u32, k: int) -> u32 {
    (target_of(e1) + 4 * k) as u32
}

/// Entry `k` of the inner table the outer entry `e1` points to.
pub open spec fn inner_entry(m: PhysMem, e1: u32, k: int) -> u32 {
    m.word(inner_addr(e1, k))
}

/// Well-formedness of the two-level table rooted at `root` inside `m`:
/// the root page and every materialized inner table lie in the
/// allocated part of the region, the inner tables are pairwise
/// distinct and distinct from the root (so a leaf write can never
/// corrupt another table page), and every valid leaf stores a physical
/// page number that fits below the 32-bit address limit.
pub open spec fn pt_wf(m: PhysMem, root: u32) -> bool {
    &&& page_aligned(root)
    &&& m.base <= root
    &&& root + PAGE_SIZE <= m.next
    &&& forall|i: int|
        0 <= i < NUM_PTE && pte_valid(#[trigger] outer_entry(m, root, i)) ==> {
            &&& m.base <= target_of(outer_entry(m, root, i))
            &&& target_of(outer_entry(m, root, i)) + PAGE_SIZE <= m.next
            &&& target_of(outer_entry(m, root, i)) != root
        }
    &&& forall|i: int, j: int|
        0 <= i < NUM_PTE && 0 <= j < NUM_PTE && i != j && pte_valid(
            #[trigger] outer_entry(m, root, i),
        ) && pte_valid(#[trigger] outer_entry(m, root, j)) ==> target_of(outer_entry(m, root, i))
            != target_of(outer_entry(m, root, j))
    &&& forall|i: int, k: int|
        0 <= i < NUM_PTE && 0 <= k < NUM_PTE && pte_valid(#[trigger] outer_entry(m, root, i))
            && pte_valid(#[trigger] inner_entry(m, outer_entry(m, root, i), k)) ==> pte_ppn(
            inner_entry(m, outer_entry(m, root, i), k),
        ) < 0x100000
}

/// The result of a page-table walk for `v` in the table rooted at
/// `root`: `None` when no valid mapping exists, otherwise the mapped
/// physical page address and the entry's low flag bits (including the
/// valid bit).
pub open spec fn walk(m: PhysMem, root: u32, v: u32) -> Option<(u32, u32)> {
    let e1 = outer_entry(m, root, vpn1(v) as int);
    if !pte_valid(e1) {
        None
    } else {
        let e0 = inner_entry(m, e1, vpn0(v) as int);
        if !pte_valid(e0) {
            None
        } else {
            Some(((pte_ppn(e0) * PAGE_SIZE) as u32, pte_flags(e0)))
        }
    }
}

/// True when word address `a` belongs to a page of the table rooted at
/// `root`: the root page itself or a materialized inner table.
pub open spec fn pt_owns(m: PhysMem, root: u32, a: u32) -> bool {
    ||| root <= a < root + PAGE_SIZE
    ||| exists|i: int|
        0 <= i < NUM_PTE && pte_valid(#[trigger] outer_entry(m, root, i)) && target_of(
            outer_entry(m, root, i),
        ) <= a < target_of(outer_entry(m, root, i)) + PAGE_SIZE
}

/// Two page-aligned addresses with equal outer and inner indices are
/// equal: the indices and the page offset exhaust the 32 bits.
pub proof fn lemma_vpn_injective(x: u32, y: u32)
    requires
        page_aligned(x),
        page_aligned(y),
        vpn1(x) == vpn1(y),
        vpn0(x) == vpn0(y),
    ensures
        x == y,
{
    assert(x == y) by (bit_vector)
        requires
            x % 4096 == 0,
            y % 4096 == 0,
            (x >> 22) & 0x3ff == (y >> 22) & 0x3ff,
            (x >> 12) & 0x3ff == (y >> 12) & 0x3ff,
    ;
}

/// Field extraction from a packed table entry `(ppn << 10) | f | V`.
pub proof fn lemma_pack_entry(p: u32, f: u32)
    requires
        p < 0x100000,
        f & 0xffff_fc00 == 0,
    ensures
        pte_ppn((p << 10) | f | PAGE_V) == p,
        pte_flags((p << 10) | f | PAGE_V) == (f | PAGE_V),
        pte_valid((p << 10) | f | PAGE_V),
{
    assert(((p << 10) | f | 1) >> 10 == p && ((p << 10) | f | 1) & 0x3ff == (f | 1) && ((p << 10)
        | f | 1) & 1 == 1) by (bit_vector)
        requires
            p < 0x100000,
            f & 0xffff_fc00 == 0,
    ;
}

/// Both vpn fields are below the table size.
pub proof fn lemma_vpn_bounds(v: u32)
    ensures
        vpn1(v) < NUM_PTE,
        vpn0(v) < NUM_PTE,
{
    assert((v >> 22) & 0x3ff < 1024 && (v >> 12) & 0x3ff < 1024) by (bit_vector);
}

/// Division of a page-aligned address by the page size is exact, and
/// the quotient fits in the entry's physical-page-number field.
pub proof fn lemma_page_div_exact(a: u32)
    requires
        page_aligned(a),
    ensures
        (a / PAGE_SIZE) * PAGE_SIZE == a,
        a / PAGE_SIZE < 0x100000,
{
    assert((a / 4096) * 4096 == a && a / 4096 < 0x100000) by (bit_vector)
        requires
            a % 4096 == 0,
    ;
}

/// The zero word is an invalid table entry.
pub proof fn lemma_zero_entry_invalid()
    ensures
        !pte_valid(0),
{
    assert(0u32 & 1u32 == 0u32) by (bit_vector);
}

/// A table root whose page is all zero is a well-formed table with no
/// valid entries: the state of a freshly allocated root.
#[verifier::rlimit(60)]
pub proof fn lemma_pt_wf_fresh(m: PhysMem, root: u32)
    requires
        m.wf(),
        page_aligned(root),
        m.base <= root,
        root + PAGE_SIZE <= m.next,
        forall|a: u32| m.word_addr(a) && root <= a < root + PAGE_SIZE ==> m.word(a) == 0,
    ensures
        pt_wf(m, root),
        forall|v: u32| walk(m, root, v) is None,
        forall|i: int| 0 <= i < NUM_PTE ==> !pte_valid(#[trigger] outer_entry(m, root, i)),
{
    lemma_zero_entry_invalid();
    lemma_page_aligned_word(root);
    assert forall|i: int| 0 <= i < NUM_PTE implies !pte_valid(#[trigger] outer_entry(m, root, i)) by {
        let a = outer_addr(root, i);
        assert(m.word_addr(a) && root <= a < root + PAGE_SIZE);
        assert(m.word(a) == 0);
    }
    assert forall|v: u32| walk(m, root, v) is None by {
        lemma_vpn_bounds(v);
    }
}


/// Find (or lazily materialize) the inner table for outer index `i1`
/// of the table rooted at `root`, returning its physical address.
/// When the outer entry is invalid, one fresh zero page is allocated
/// and installed; that allocation is the only way this can fail.
#[verifier::rlimit(100)]
fn ensure_inner_table(m: &mut PhysMem, root: u32, i1: u32) -> (r: Result<u32, KernelError>)
    requires
        old(m).wf(),
        pt_wf(*old(m), root),
        i1 < NUM_PTE,
    ensures
        final(m).wf(),
        pt_wf(*final(m), root),
        final(m).base == old(m).base,
        final(m).end == old(m).end,
        old(m).next <= final(m).next,
        // Success exactly when the entry was present or a page fits.
        r is Ok <==> (pte_valid(outer_entry(*old(m), root, i1 as int)) || old(m).next + PAGE_SIZE
            <= old(m).end),
        r matches Err(e) ==> e == KernelError::OutOfPhysicalMemory && *final(m) == *old(m),
        r matches Ok(t0) ==> {
            &&& pte_valid(outer_entry(*final(m), root, i1 as int))
            &&& target_of(outer_entry(*final(m), root, i1 as int)) == t0
            &&& page_aligned(t0)
            &&& old(m).base <= t0
            &&& t0 + PAGE_SIZE <= final(m).next
            &&& t0 != root
            // Entry already present: nothing changes at all.
            &&& (pte_valid(outer_entry(*old(m), root, i1 as int)) ==> *final(m) == *old(m)
                && t0 == target_of(outer_entry(*old(m), root, i1 as int)))
            // Entry was absent: a fresh zero page past every page the
            // table owned so far, and one outer-entry write.
            &&& (!pte_valid(outer_entry(*old(m), root, i1 as int)) ==> {
                &&& t0 == old(m).next
                &&& final(m).next == old(m).next + PAGE_SIZE
                &&& forall|a: u32|
                    old(m).word_addr(a) && t0 <= a < t0 + PAGE_SIZE ==> final(m).word(a) == 0
                &&& forall|a: u32|
                    old(m).word_addr(a) && !(t0 <= a < t0 + PAGE_SIZE) && a != outer_addr(
                        root,
                        i1 as int,
                    ) ==> final(m).word(a) == old(m).word(a)
            })
            // Other outer entries keep their values either way.
            &&& forall|i: int|
                0 <= i < NUM_PTE && i != i1 ==> outer_entry(*final(m), root, i) == outer_entry(
                    *old(m),
                    root,
                    i,
                )
        },
{
    proof {
        lemma_page_aligned_word(root);
    }
    let ea1: u32 = root + 4 * i1;
    let e1: u32 = m.read_word(ea1);
    if e1 & PAGE_V != 0 {
        proof {
            assert(pte_valid(e1)) by (bit_vector)
                requires
                    e1 & 1u32 != 0,
            ;
            assert(e1 == outer_entry(*m, root, i1 as int));
        }
        let ghost tgt = target_of(e1);
        proof {
            assert(m.base <= tgt && tgt + PAGE_SIZE <= m.next && tgt != root);
            assert((e1 >> 10) < 0x100000) by (nonlinear_arith)
                requires
                    (e1 >> 10) * 4096 + 4096 <= u32::MAX,
            ;
            assert(page_aligned((tgt) as u32)) by (nonlinear_arith)
                requires
                    tgt == (e1 >> 10) * 4096,
                    (e1 >> 10) < 0x100000,
                    tgt == (tgt as u32),
            ;
        }
        let t0: u32 = (e1 >> 10) * PAGE_SIZE;
        return Ok(t0);
    }
    proof {
        assert(!pte_valid(e1)) by (bit_vector)
            requires
                e1 & 1u32 == 0,
        ;
    }
    let ghost m0 = *m;
    let t0: u32 = match m.alloc_pages(1) {
        Ok(p) => p,
        Err(e) => {
            return Err(KernelError::OutOfPhysicalMemory);
        },
    };
    let ghost m1 = *m;
    proof {
        lemma_page_div_exact(t0);
        assert(0u32 & 0xffff_fc00u32 == 0u32) by (bit_vector);
        lemma_pack_entry(t0 / PAGE_SIZE, 0);
        let p = t0 / PAGE_SIZE;
        assert(((p << 10) | 0 | 1) == ((p << 10) | 1)) by (bit_vector);
        assert((0u32 | 1u32) == 1u32) by (bit_vector);
    }
    let e1new: u32 = ((t0 / PAGE_SIZE) << 10) | PAGE_V;
    m.write_word(ea1, e1new);
    proof {
        lemma_zero_entry_invalid();
        // The new entry decodes to the fresh page.
        assert(pte_ppn(e1new) == t0 / PAGE_SIZE && pte_valid(e1new));
        assert(target_of(e1new) == t0);
        // Outer entries other than i1 keep their old values.
        assert forall|i: int| 0 <= i < NUM_PTE && i != i1 implies outer_entry(*m, root, i)
            == outer_entry(m0, root, i) by {
            let a = outer_addr(root, i);
            assert(m0.word_addr(a) && root <= a < root + PAGE_SIZE);
            assert(a != ea1);
            assert(!(t0 <= a < t0 + PAGE_SIZE));
        }
        assert(outer_entry(*m, root, i1 as int) == e1new);
        // The table stays well-formed.
        assert forall|i: int|
            0 <= i < NUM_PTE && pte_valid(#[trigger] outer_entry(*m, root, i)) implies {
            &&& m.base <= target_of(outer_entry(*m, root, i))
            &&& target_of(outer_entry(*m, root, i)) + PAGE_SIZE <= m.next
            &&& target_of(outer_entry(*m, root, i)) != root
        } by {
            if i != i1 {
                assert(outer_entry(*m, root, i) == outer_entry(m0, root, i));
            }
        }
        assert forall|i: int, j: int|
            0 <= i < NUM_PTE && 0 <= j < NUM_PTE && i != j && pte_valid(
                #[trigger] outer_entry(*m, root, i),
            ) && pte_valid(#[trigger] outer_entry(*m, root, j)) implies target_of(
            outer_entry(*m, root, i),
        ) != target_of(outer_entry(*m, root, j)) by {
            if i != i1 {
                assert(outer_entry(*m, root, i) == outer_entry(m0, root, i));
            }
            if j != i1 {
                assert(outer_entry(*m, root, j) == outer_entry(m0, root, j));
            }
            // A pre-existing inner table lies wholly below the fresh
            // page, so it cannot coincide with it.
            if i == i1 && j != i1 {
                assert(target_of(outer_entry(m0, root, j)) + PAGE_SIZE <= m0.next);
            }
            if j == i1 && i != i1 {
                assert(target_of(outer_entry(m0, root, i)) + PAGE_SIZE <= m0.next);
            }
        }
        assert forall|i: int, k: int|
            0 <= i < NUM_PTE && 0 <= k < NUM_PTE && pte_valid(#[trigger] outer_entry(*m, root, i))
                && pte_valid(#[trigger] inner_entry(*m, outer_entry(*m, root, i), k)) implies
            pte_ppn(inner_entry(*m, outer_entry(*m, root, i), k)) < 0x100000 by {
            if i == i1 {
                // The fresh inner table is all zero: no valid entries.
                let a = inner_addr(e1new, k);
                assert(t0 <= a < t0 + PAGE_SIZE);
                assert(m.word_addr(a));
                assert(a != ea1);
                assert(inner_entry(*m, e1new, k) == 0);
            } else {
                let e1i = outer_entry(m0, root, i);
                assert(outer_entry(*m, root, i) == e1i);
                let a = inner_addr(e1i, k);
                assert(m0.word_addr(a) && target_of(e1i) <= a < target_of(e1i) + PAGE_SIZE);
                assert(a != ea1);
                assert(!(t0 <= a < t0 + PAGE_SIZE));
                assert(inner_entry(*m, e1i, k) == inner_entry(m0, e1i, k));
            }
        }
    }
    Ok(t0)
}


/// Two distinct page-aligned addresses head disjoint pages.
pub proof fn lemma_page_disjoint(a: u32, b: u32)
    requires
        page_aligned(a),
        page_aligned(b),
        a != b,
    ensures
        a + PAGE_SIZE <= b || b + PAGE_SIZE <= a,
{
    lemma_page_div_exact(a);
    lemma_page_div_exact(b);
    assert(a + 4096 <= b || b + 4096 <= a) by (nonlinear_arith)
        requires
            a == (a / 4096) * 4096,
            b == (b / 4096) * 4096,
            a != b,
    ;
}

/// Relation between the memory before and after the inner table for
/// outer index `i1` was found or materialized at address `t0`.
spec fn inner_table_ready(m0: PhysMem, m1: PhysMem, root: u32, i1: int, t0: u32) -> bool {
    &&& m0.wf()
    &&& m1.wf()
    &&& pt_wf(m0, root)
    &&& pt_wf(m1, root)
    &&& m1.base == m0.base
    &&& m1.end == m0.end
    &&& m0.next <= m1.next
    &&& 0 <= i1 < NUM_PTE
    &&& pte_valid(outer_entry(m1, root, i1))
    &&& target_of(outer_entry(m1, root, i1)) == t0
    &&& page_aligned(t0)
    &&& m0.base <= t0
    &&& t0 + PAGE_SIZE <= m1.next
    &&& t0 != root
    &&& (pte_valid(outer_entry(m0, root, i1)) ==> m1 == m0)
    &&& (!pte_valid(outer_entry(m0, root, i1)) ==> {
        &&& t0 == m0.next
        &&& m1.next == m0.next + PAGE_SIZE
        &&& forall|a: u32| m0.word_addr(a) && t0 <= a < t0 + PAGE_SIZE ==> m1.word(a) == 0
        &&& forall|a: u32|
            m0.word_addr(a) && !(t0 <= a < t0 + PAGE_SIZE) && a != outer_addr(root, i1)
                ==> m1.word(a) == m0.word(a)
    })
    &&& forall|i: int|
        0 <= i < NUM_PTE && i != i1 ==> outer_entry(m1, root, i) == outer_entry(m0, root, i)
}

/// Relation between the memory before and after one word write of
/// `leaf` at address `la`.
spec fn leaf_written(m1: PhysMem, m2: PhysMem, la: u32, leaf: u32) -> bool {
    &&& m2.wf()
    &&& m2.base == m1.base
    &&& m2.next == m1.next
    &&& m2.end == m1.end
    &&& m1.word_addr(la)
    &&& m2.word(la) == leaf
    &&& forall|b: u32| m1.word_addr(b) && b != la ==> m2.word(b) == m1.word(b)
}

/// After the leaf write, the table entries of `root` read as before
/// except for the one written slot, and the table stays well-formed.
#[verifier::rlimit(100)]
proof fn lemma_map_wf(m0: PhysMem, m1: PhysMem, m2: PhysMem, root: u32, i1: int, i0: int, t0: u32, leaf: u32)
    requires
        inner_table_ready(m0, m1, root, i1, t0),
        0 <= i0 < NUM_PTE,
        leaf_written(m1, m2, (t0 + 4 * i0) as u32, leaf),
        pte_ppn(leaf) < 0x100000,
    ensures
        pt_wf(m2, root),
        forall|i: int| 0 <= i < NUM_PTE ==> outer_entry(m2, root, i) == outer_entry(m1, root, i),
        forall|i: int, k: int|
            0 <= i < NUM_PTE && 0 <= k < NUM_PTE && pte_valid(outer_entry(m1, root, i)) && !(i
                == i1 && k == i0) ==> inner_entry(m2, outer_entry(m1, root, i), k) == inner_entry(
                m1,
                outer_entry(m1, root, i),
                k,
            ),
        inner_entry(m2, outer_entry(m1, root, i1), i0) == leaf,
{
    let la = (t0 + 4 * i0) as u32;
    lemma_page_disjoint(t0, root);
    assert forall|i: int| 0 <= i < NUM_PTE implies outer_entry(m2, root, i) == outer_entry(
        m1,
        root,
        i,
    ) by {
        let a = outer_addr(root, i);
        assert(m1.word_addr(a) && root <= a < root + PAGE_SIZE);
        assert(a != la);
    }
    assert forall|i: int, k: int|
        0 <= i < NUM_PTE && 0 <= k < NUM_PTE && pte_valid(outer_entry(m1, root, i)) && !(i == i1
            && k == i0) implies inner_entry(m2, outer_entry(m1, root, i), k) == inner_entry(
        m1,
        outer_entry(m1, root, i),
        k,
    ) by {
        let e1i = outer_entry(m1, root, i);
        let a = inner_addr(e1i, k);
        assert(m1.word_addr(a) && target_of(e1i) <= a < target_of(e1i) + PAGE_SIZE);
        if i == i1 {
            assert(a == t0 + 4 * k && la == t0 + 4 * i0);
            assert(a != la);
        } else {
            assert(target_of(e1i) != t0);
            lemma_page_disjoint(t0, (target_of(e1i)) as u32);
            assert(a != la);
        }
    }
    assert forall|i: int|
        0 <= i < NUM_PTE && pte_valid(#[trigger] outer_entry(m2, root, i)) implies {
        &&& m2.base <= target_of(outer_entry(m2, root, i))
        &&& target_of(outer_entry(m2, root, i)) + PAGE_SIZE <= m2.next
        &&& target_of(outer_entry(m2, root, i)) != root
    } by {
        assert(outer_entry(m2, root, i) == outer_entry(m1, root, i));
    }
    assert forall|i: int, k: int|
        0 <= i < NUM_PTE && 0 <= k < NUM_PTE && pte_valid(#[trigger] outer_entry(m2, root, i))
            && pte_valid(#[trigger] inner_entry(m2, outer_entry(m2, root, i), k)) implies pte_ppn(
        inner_entry(m2, outer_entry(m2, root, i), k),
    ) < 0x100000 by {
        assert(outer_entry(m2, root, i) == outer_entry(m1, root, i));
        if !(i == i1 && k == i0) {
            assert(inner_entry(m2, outer_entry(m1, root, i), k) == inner_entry(
                m1,
                outer_entry(m1, root, i),
                k,
            ));
        }
    }
}

/// After the leaf write, the walk for the mapped page hits the new
/// leaf and every other aligned page translates as before the call.
#[verifier::rlimit(100)]
proof fn lemma_map_walk(m0: PhysMem, m1: PhysMem, m2: PhysMem, root: u32, vaddr: u32, t0: u32, leaf: u32)
    requires
        page_aligned(vaddr),
        inner_table_ready(m0, m1, root, vpn1(vaddr) as int, t0),
        leaf_written(m1, m2, (t0 + 4 * vpn0(vaddr)) as u32, leaf),
        pte_ppn(leaf) < 0x100000,
        pte_valid(leaf),
    ensures
        walk(m2, root, vaddr) == Some(((pte_ppn(leaf) * PAGE_SIZE) as u32, pte_flags(leaf))),
        forall|v: u32|
            page_aligned(v) && v != vaddr ==> walk(m2, root, v) == walk(m0, root, v),
{
    lemma_vpn_bounds(vaddr);
    lemma_zero_entry_invalid();
    let i1 = vpn1(vaddr) as int;
    let i0 = vpn0(vaddr) as int;
    let la = (t0 + 4 * i0) as u32;
    let was_valid = pte_valid(outer_entry(m0, root, i1));
    let e1cur = outer_entry(m1, root, i1);
    lemma_map_wf(m0, m1, m2, root, i1, i0, t0, leaf);
    assert(outer_entry(m2, root, i1) == e1cur);
    assert(inner_entry(m2, e1cur, i0) == leaf);
    assert(walk(m2, root, vaddr) == Some(((pte_ppn(leaf) * PAGE_SIZE) as u32, pte_flags(leaf))));
    assert forall|v: u32| page_aligned(v) && v != vaddr implies walk(m2, root, v) == walk(
        m0,
        root,
        v,
    ) by {
        lemma_vpn_bounds(v);
        let j1 = vpn1(v) as int;
        let j0 = vpn0(v) as int;
        if j1 == i1 && j0 == i0 {
            lemma_vpn_injective(v, vaddr);
            assert(false);
        }
        if j1 != i1 {
            // Another region: its outer entry and, when valid, its
            // whole inner table are untouched by this call.
            assert(outer_entry(m2, root, j1) == outer_entry(m1, root, j1));
            assert(outer_entry(m1, root, j1) == outer_entry(m0, root, j1));
            let e1v = outer_entry(m0, root, j1);
            if pte_valid(e1v) {
                let tv = target_of(e1v);
                assert(m0.base <= tv && tv + PAGE_SIZE <= m0.next && tv != root);
                let a = inner_addr(e1v, j0);
                assert(m0.word_addr(a) && tv <= a < tv + PAGE_SIZE);
                // Unchanged while the inner table was materialized ...
                if !was_valid {
                    lemma_page_disjoint((tv) as u32, root);
                    assert(a != outer_addr(root, i1));
                    assert(!(t0 <= a < t0 + PAGE_SIZE));
                }
                assert(inner_entry(m1, e1v, j0) == inner_entry(m0, e1v, j0));
                // ... and by the leaf write.
                if was_valid {
                    assert(tv != t0);
                }
                lemma_page_disjoint((tv) as u32, t0);
                assert(a != la);
                assert(inner_entry(m2, e1v, j0) == inner_entry(m0, e1v, j0));
            }
        } else {
            // Same region, different inner index.
            assert(j0 != i0);
            assert(outer_entry(m2, root, j1) == e1cur);
            let a = inner_addr(e1cur, j0);
            assert(a == t0 + 4 * j0 && la == t0 + 4 * i0);
            assert(a != la);
            assert(m1.word_addr(a) && t0 <= a < t0 + PAGE_SIZE);
            if was_valid {
                // The inner table already existed; only slot `i0`
                // changed.
                assert(m1 == m0);
                assert(inner_entry(m2, e1cur, j0) == inner_entry(m0, e1cur, j0));
            } else {
                // The region was new: it translated nothing before,
                // and every slot but `i0` is still zero.
                assert(!pte_valid(outer_entry(m0, root, j1)));
                assert(walk(m0, root, v) is None);
                assert(m1.word(a) == 0);
                assert(inner_entry(m2, e1cur, j0) == 0);
                assert(walk(m2, root, v) is None);
            }
        }
    }
}

/// After the leaf write, words the table does not own are untouched
/// and the table's ownership grew only into the freshly allocated
/// page, if any.
#[verifier::rlimit(100)]
proof fn lemma_map_owns(m0: PhysMem, m1: PhysMem, m2: PhysMem, root: u32, i1: int, i0: int, t0: u32, leaf: u32)
    requires
        inner_table_ready(m0, m1, root, i1, t0),
        0 <= i0 < NUM_PTE,
        leaf_written(m1, m2, (t0 + 4 * i0) as u32, leaf),
        pte_ppn(leaf) < 0x100000,
    ensures
        forall|a: u32|
            m0.word_addr(a) && a < m0.next && !pt_owns(m0, root, a) ==> m2.word(a) == m0.word(a),
        forall|a: u32|
            m0.word_addr(a) && pt_owns(m2, root, a) ==> pt_owns(m0, root, a) || m0.next <= a,
{
    let la = (t0 + 4 * i0) as u32;
    let was_valid = pte_valid(outer_entry(m0, root, i1));
    lemma_map_wf(m0, m1, m2, root, i1, i0, t0, leaf);
    assert forall|a: u32|
        m0.word_addr(a) && a < m0.next && !pt_owns(m0, root, a) implies m2.word(a) == m0.word(
        a,
    ) by {
        assert(!(root <= a < root + PAGE_SIZE));
        if !was_valid {
            assert(a != outer_addr(root, i1));
            assert(!(t0 <= a < t0 + PAGE_SIZE));
            assert(m1.word(a) == m0.word(a));
        }
        if was_valid {
            assert(pte_valid(outer_entry(m0, root, i1)) && target_of(outer_entry(m0, root, i1))
                == t0);
            assert(!(t0 <= a < t0 + PAGE_SIZE));
        }
        assert(a != la);
    }
    assert forall|a: u32|
        m0.word_addr(a) && pt_owns(m2, root, a) implies pt_owns(m0, root, a) || m0.next <= a by {
        if !(root <= a < root + PAGE_SIZE) {
            let i = choose|i: int|
                0 <= i < NUM_PTE && pte_valid(#[trigger] outer_entry(m2, root, i)) && target_of(
                    outer_entry(m2, root, i),
                ) <= a < target_of(outer_entry(m2, root, i)) + PAGE_SIZE;
            assert(outer_entry(m2, root, i) == outer_entry(m1, root, i));
            if i != i1 {
                assert(outer_entry(m1, root, i) == outer_entry(m0, root, i));
                assert(pt_owns(m0, root, a));
            } else {
                if was_valid {
                    assert(pt_owns(m0, root, a));
                } else {
                    assert(t0 == m0.next);
                }
            }
        }
    }
}

/// Everything a successful `map_page` call guarantees, relating the
/// memory before (`m0`) and after (`m1`) the call.
#[verifier::opaque]
pub open spec fn map_page_ok_post(m0: PhysMem, m1: PhysMem, table1: u32, vaddr: u32, paddr: u32, flags: u32) -> bool {
    &&& m1.wf()
    &&& pt_wf(m1, table1)
    &&& m1.base == m0.base
    &&& m1.end == m0.end
    &&& m0.next <= m1.next <= m0.next + PAGE_SIZE
    // The walk for `vaddr` now yields `paddr` with exactly the
    // requested permission bits plus the valid bit.
    &&& walk(m1, table1, vaddr) == Some((paddr, flags | PAGE_V))
    // Every other page's translation is untouched.
    &&& (forall|v: u32| page_aligned(v) && v != vaddr ==> walk(m1, table1, v) == walk(m0, table1, v))
    // Outer entries of other regions keep their values.
    &&& (forall|i: int|
        0 <= i < NUM_PTE && i != vpn1(vaddr) ==> outer_entry(m1, table1, i) == outer_entry(
            m0,
            table1,
            i,
        ))
    &&& pte_valid(outer_entry(m1, table1, vpn1(vaddr) as int))
    // The allocator moved exactly when the region was new.
    &&& (pte_valid(outer_entry(m0, table1, vpn1(vaddr) as int)) <==> m1.next == m0.next)
    // Words outside this table's own pages are untouched.
    &&& (forall|a: u32|
        m0.word_addr(a) && a < m0.next && !pt_owns(m0, table1, a) ==> m1.word(a) == m0.word(a))
    // This table's ownership grows only into fresh pages.
    &&& (forall|a: u32|
        m0.word_addr(a) && pt_owns(m1, table1, a) ==> pt_owns(m0, table1, a) || m0.next <= a)
}

/// Install a leaf mapping from `vaddr` to `paddr` with permission
/// `flags` in the two-level table rooted at `table1`, materializing
/// the inner table for `vaddr`'s 4 MiB region first if it does not
/// exist yet.  Misaligned addresses and an exhausted allocator are
/// fatal; remapping an already-mapped page silently overwrites the
/// leaf entry.  There is no unmap operation.
pub fn map_page(m: &mut PhysMem, table1: u32, vaddr: u32, paddr: u32, flags: u32) -> (r: Result<
    (),
    KernelError,
>)
    requires
        old(m).wf(),
        pt_wf(*old(m), table1),
        // The flags must fit the entry's low ten bits.
        flags & 0xffff_fc00 == 0,
    ensures
        final(m).wf(),
        pt_wf(*final(m), table1),
        final(m).base == old(m).base,
        final(m).end == old(m).end,
        old(m).next <= final(m).next <= old(m).next + PAGE_SIZE,
        // A misaligned virtual address is rejected first, then a
        // misaligned physical address; nothing changes in either case.
        !page_aligned(vaddr) ==> r == Result::<(), KernelError>::Err(
            KernelError::MisalignedAddress { addr: vaddr },
        ) && *final(m) == *old(m),
        page_aligned(vaddr) && !page_aligned(paddr) ==> r == Result::<(), KernelError>::Err(
            KernelError::MisalignedAddress { addr: paddr },
        ) && *final(m) == *old(m),
        // With aligned addresses, the call succeeds exactly when the
        // region is already materialized or one more page fits.
        page_aligned(vaddr) && page_aligned(paddr) ==> {
            &&& (r is Ok <==> (pte_valid(outer_entry(*old(m), table1, vpn1(vaddr) as int))
                || old(m).next + PAGE_SIZE <= old(m).end))
            &&& (r is Err ==> r == Result::<(), KernelError>::Err(
                KernelError::OutOfPhysicalMemory,
            ) && *final(m) == *old(m))
        },
        r is Ok ==> map_page_ok_post(*old(m), *final(m), table1, vaddr, paddr, flags),
{
    if vaddr % PAGE_SIZE != 0 {
        return Err(KernelError::MisalignedAddress { addr: vaddr });
    }
    if paddr % PAGE_SIZE != 0 {
        return Err(KernelError::MisalignedAddress { addr: paddr });
    }
    proof {
        lemma_vpn_bounds(vaddr);
    }
    let i1: u32 = (vaddr >> 22) & 0x3ff;
    let ghost m0 = *m;
    let t0: u32 = match ensure_inner_table(m, table1, i1) {
        Ok(t) => t,
        Err(e) => {
            return Err(e);
        },
    };
    let ghost m1 = *m;
    let i0: u32 = (vaddr >> 12) & 0x3ff;
    proof {
        lemma_page_div_exact(paddr);
        lemma_pack_entry(paddr / PAGE_SIZE, flags);
        lemma_page_aligned_word(t0);
        assert(m1.word_addr((t0 + 4 * i0) as u32));
        assert(inner_table_ready(m0, m1, table1, i1 as int, t0));
    }
    let la: u32 = t0 + 4 * i0;
    let leaf: u32 = ((paddr / PAGE_SIZE) << 10) | flags | PAGE_V;
    m.write_word(la, leaf);
    proof {
        reveal(map_page_ok_post);
        assert(leaf_written(m1, *m, la, leaf));
        lemma_map_wf(m0, m1, *m, table1, i1 as int, i0 as int, t0, leaf);
        lemma_map_walk(m0, m1, *m, table1, vaddr, t0, leaf);
        lemma_map_owns(m0, m1, *m, table1, i1 as int, i0 as int, t0, leaf);
        assert(walk(*m, table1, vaddr) == Some((paddr, flags | PAGE_V)));
    }
    Ok(())
}


/// Perform a page-table walk for `vaddr` in the table rooted at
/// `table1`: the executable counterpart of the `walk` function, used
/// to observe what a mapping resolves to.  Returns the mapped physical
/// page address and the entry's flag bits, or `None` when no valid
/// mapping exists.
#[verifier::rlimit(60)]
pub fn walk_page(m: &PhysMem, table1: u32, vaddr: u32) -> (r: Option<(u32, u32)>)
    requires
        m.wf(),
        pt_wf(*m, table1),
    ensures
        r == walk(*m, table1, vaddr),
{
    proof {
        lemma_vpn_bounds(vaddr);
        lemma_page_aligned_word(table1);
    }
    let i1: u32 = (vaddr >> 22) & 0x3ff;
    let e1: u32 = m.read_word(table1 + 4 * i1);
    if e1 & PAGE_V == 0 {
        proof {
            assert(!pte_valid(e1)) by (bit_vector)
                requires
                    e1 & 1u32 == 0,
            ;
        }
        return None;
    }
    proof {
        assert(pte_valid(e1)) by (bit_vector)
            requires
                e1 & 1u32 != 0,
        ;
        assert((e1 >> 10) < 0x100000) by (nonlinear_arith)
            requires
                (e1 >> 10) * 4096 + 4096 <= u32::MAX,
        ;
        assert(page_aligned(((e1 >> 10) * 4096) as u32)) by (nonlinear_arith)
            requires
                (e1 >> 10) < 0x100000,
        ;
        lemma_page_aligned_word(((e1 >> 10) * 4096) as u32);
    }
    let t0: u32 = (e1 >> 10) * PAGE_SIZE;
    let i0: u32 = (vaddr >> 12) & 0x3ff;
    let e0: u32 = m.read_word(t0 + 4 * i0);
    if e0 & PAGE_V == 0 {
        proof {
            assert(!pte_valid(e0)) by (bit_vector)
                requires
                    e0 & 1u32 == 0,
            ;
        }
        return None;
    }
    proof {
        assert(pte_valid(e0)) by (bit_vector)
            requires
                e0 & 1u32 != 0,
        ;
        assert(e0 == inner_entry(*m, e1, i0 as int));
        assert(pte_ppn(e0) < 0x100000);
        assert((e0 >> 10) * 4096 <= u32::MAX) by (nonlinear_arith)
            requires
                (e0 >> 10) < 0x100000,
        ;
    }
    let pa: u32 = (e0 >> 10) * PAGE_SIZE;
    let fl: u32 = e0 & 0x3ff;
    Some((pa, fl))
}

/// A page table is insensitive to writes outside its own pages: if a
/// second memory state agrees with the first on every word the table
/// owns (and the region bounds are unchanged, the cursor at most
/// advanced), the table is still well-formed, owns the same words and
/// translates every address as before.
#[verifier::rlimit(60)]
pub proof fn lemma_pt_preserved(m1: PhysMem, m2: PhysMem, root: u32)
    requires
        m1.wf(),
        m2.wf(),
        pt_wf(m1, root),
        m2.base == m1.base,
        m2.end == m1.end,
        m1.next <= m2.next,
        forall|a: u32| m1.word_addr(a) && pt_owns(m1, root, a) ==> m2.word(a) == m1.word(a),
    ensures
        pt_wf(m2, root),
        forall|v: u32| walk(m2, root, v) == walk(m1, root, v),
        forall|a: u32| pt_owns(m2, root, a) <==> pt_owns(m1, root, a),
{
    assert forall|i: int| 0 <= i < NUM_PTE implies outer_entry(m2, root, i) == outer_entry(
        m1,
        root,
        i,
    ) by {
        let a = outer_addr(root, i);
        assert(m1.word_addr(a) && root <= a < root + PAGE_SIZE);
        assert(pt_owns(m1, root, a));
    }
    assert forall|i: int, k: int|
        0 <= i < NUM_PTE && 0 <= k < NUM_PTE && pte_valid(outer_entry(m1, root, i)) implies
        inner_entry(m2, outer_entry(m1, root, i), k) == inner_entry(
        m1,
        outer_entry(m1, root, i),
        k,
    ) by {
        let e1i = outer_entry(m1, root, i);
        let a = inner_addr(e1i, k);
        assert(m1.word_addr(a) && target_of(e1i) <= a < target_of(e1i) + PAGE_SIZE);
        assert(pt_owns(m1, root, a));
    }
    assert forall|v: u32| walk(m2, root, v) == walk(m1, root, v) by {
        lemma_vpn_bounds(v);
    }
    assert forall|a: u32| pt_owns(m2, root, a) <==> pt_owns(m1, root, a) by {
        if pt_owns(m2, root, a) && !(root <= a < root + PAGE_SIZE) {
            let i = choose|i: int|
                0 <= i < NUM_PTE && pte_valid(#[trigger] outer_entry(m2, root, i)) && target_of(
                    outer_entry(m2, root, i),
                ) <= a < target_of(outer_entry(m2, root, i)) + PAGE_SIZE;
            assert(pte_valid(outer_entry(m1, root, i)));
            assert(pt_owns(m1, root, a));
        }
        if pt_owns(m1, root, a) && !(root <= a < root + PAGE_SIZE) {
            let i = choose|i: int|
                0 <= i < NUM_PTE && pte_valid(#[trigger] outer_entry(m1, root, i)) && target_of(
                    outer_entry(m1, root, i),
                ) <= a < target_of(outer_entry(m1, root, i)) + PAGE_SIZE;
            assert(pte_valid(outer_entry(m2, root, i)));
            assert(pt_owns(m2, root, a));
        }
    }
}

/// Every word a well-formed table owns lies below the allocation
/// cursor: table pages come from the allocator and nowhere else.
pub proof fn lemma_pt_owns_below_next(m: PhysMem, root: u32)
    requires
        pt_wf(m, root),
    ensures
        forall|a: u32| pt_owns(m, root, a) ==> root <= a || m.base <= a,
        forall|a: u32| pt_owns(m, root, a) ==> a < m.next,
{
    assert forall|a: u32| pt_owns(m, root, a) implies a < m.next && (root <= a || m.base
        <= a) by {
        if !(root <= a < root + PAGE_SIZE) {
            let i = choose|i: int|
                0 <= i < NUM_PTE && pte_valid(#[trigger] outer_entry(m, root, i)) && target_of(
                    outer_entry(m, root, i),
                ) <= a < target_of(outer_entry(m, root, i)) + PAGE_SIZE;
            assert(target_of(outer_entry(m, root, i)) + PAGE_SIZE <= m.next);
        }
    }
}

/// The bump allocator hands out strictly increasing addresses: across
/// two successful allocations the second address is exactly the page
/// count of the first past the first address.
pub proof fn lemma_alloc_monotonic(m0: PhysMem, m1: PhysMem, n1: u32, n2: u32, r1: u32, r2: u32)
    requires
        r1 == m0.next,
        m1.next == m0.next + n1 * PAGE_SIZE,
        r2 == m1.next,
    ensures
        r2 == r1 + n1 * PAGE_SIZE,
        n1 > 0 ==> r1 < r2,
{
    if n1 > 0 {
        assert(n1 * PAGE_SIZE >= PAGE_SIZE) by (nonlinear_arith)
            requires
                n1 >= 1,
                PAGE_SIZE == 4096,
        ;
    }
}


/// The table rooted at `root` identity maps every page of
/// `[lo, hi)` with read, write and execute permission (entry flags
/// 0xf: valid plus the three access bits).
pub open spec fn pt_ident(m: PhysMem, root: u32, lo: u32, hi: u32) -> bool {
    forall|v: u32|
        page_aligned(v) && lo <= v < hi ==> #[trigger] walk(m, root, v) == Some((v, 0xfu32))
}


/// The outer index never decreases along increasing addresses.
pub proof fn lemma_vpn1_monotone(p: u32, q: u32)
    requires
        p <= q,
    ensures
        vpn1(p) <= vpn1(q),
{
    assert((p >> 22) & 0x3ff <= (q >> 22) & 0x3ff) by (bit_vector)
        requires
            p <= q,
    ;
}

/// Stepping one page forward raises the outer index by zero or one.
pub proof fn lemma_vpn1_step(p: u32)
    requires
        page_aligned(p),
        p + PAGE_SIZE <= 0xffff_ffff,
    ensures
        vpn1((p + PAGE_SIZE) as u32) == vpn1(p) || vpn1((p + PAGE_SIZE) as u32) == vpn1(p) + 1,
{
    assert((((p + 4096) as u32) >> 22) & 0x3ff == ((p >> 22) & 0x3ff) || (((p + 4096) as u32)
        >> 22) & 0x3ff == ((p >> 22) & 0x3ff) + 1) by (bit_vector)
        requires
            p % 4096 == 0,
            p <= 0xffff_efffu32,
    ;
}

/// Number of distinct 4 MiB regions (outer-table entries) the pages
/// of `[lo, hi)` touch.
pub open spec fn ident_regions(lo: u32, hi: u32) -> int {
    if lo >= hi {
        0
    } else {
        vpn1((hi - PAGE_SIZE) as u32) - vpn1(lo) + 1
    }
}

/// Pages the allocator must supply to build a fresh table that
/// identity maps `[lo, hi)`: the root plus one inner table per
/// touched region.
pub open spec fn ident_pages_needed(lo: u32, hi: u32) -> int {
    1 + ident_regions(lo, hi)
}


/// Invariant of the loop that builds a fresh identity-mapping table:
/// `m` is the memory after the pages of `[kb, paddr)` were mapped into
/// the table rooted at `root`, which was allocated at the old cursor
/// of `mem0`.  The table translates exactly the pages mapped so far,
/// has materialized exactly their regions, and has consumed exactly
/// one page per region beyond the root; everything the allocator had
/// handed out before is untouched.
#[verifier::opaque]
pub open spec fn ident_build_inv(m: PhysMem, mem0: PhysMem, root: u32, kb: u32, end: u32, paddr: u32) -> bool {
    &&& m.wf()
    &&& mem0.wf()
    &&& m.base == mem0.base
    &&& m.end == end
    &&& mem0.end == end
    &&& root == mem0.next
    &&& page_aligned(kb)
    &&& page_aligned(end)
    &&& page_aligned(paddr)
    &&& kb <= paddr <= end
    &&& pt_wf(m, root)
    &&& (forall|v: u32|
        page_aligned(v) && kb <= v < paddr ==> #[trigger] walk(m, root, v) == Some((v, 0xfu32)))
    &&& (forall|t: int|
        0 <= t < NUM_PTE ==> (pte_valid(#[trigger] outer_entry(m, root, t)) <==> (kb < paddr
            && vpn1(kb) <= t <= vpn1((paddr - PAGE_SIZE) as u32))))
    &&& m.next == mem0.next + (1 + ident_regions(kb, paddr)) * PAGE_SIZE
    &&& (forall|a: u32| mem0.word_addr(a) && a < mem0.next ==> m.word(a) == mem0.word(a))
    &&& (forall|a: u32| mem0.word_addr(a) && pt_owns(m, root, a) ==> mem0.next <= a)
}

/// Step piece: after mapping `paddr`, the materialized regions are
/// exactly `[vpn1(kb), vpn1(paddr)]`, and the cursor moved exactly
/// when the region was new.
proof fn lemma_ident_step_outer(mpre: PhysMem, m: PhysMem, root: u32, kb: u32, end: u32, paddr: u32, mem0_next: int)
    requires
        page_aligned(kb),
        page_aligned(paddr),
        page_aligned(end),
        kb <= paddr < end,
        end <= u32::MAX,
        forall|t: int|
            0 <= t < NUM_PTE ==> (pte_valid(#[trigger] outer_entry(mpre, root, t)) <==> (kb
                < paddr && vpn1(kb) <= t <= vpn1((paddr - PAGE_SIZE) as u32))),
        forall|i: int|
            0 <= i < NUM_PTE && i != vpn1(paddr) ==> outer_entry(m, root, i) == outer_entry(
                mpre,
                root,
                i,
            ),
        pte_valid(outer_entry(m, root, vpn1(paddr) as int)),
        (pte_valid(outer_entry(mpre, root, vpn1(paddr) as int)) <==> m.next == mpre.next),
        m.next == mpre.next || m.next == mpre.next + PAGE_SIZE,
        mpre.next == mem0_next + (1 + ident_regions(kb, paddr)) * PAGE_SIZE,
    ensures
        forall|t: int|
            0 <= t < NUM_PTE ==> (pte_valid(#[trigger] outer_entry(m, root, t)) <==> (vpn1(kb)
                <= t <= vpn1(paddr))),
        m.next == mem0_next + (1 + ident_regions(kb, (paddr + PAGE_SIZE) as u32)) * PAGE_SIZE,
{
    let t1 = vpn1(paddr) as int;
    lemma_vpn_bounds(paddr);
    lemma_vpn1_monotone(kb, paddr);
    if paddr > kb {
        lemma_vpn1_step((paddr - PAGE_SIZE) as u32);
        lemma_vpn1_monotone(kb, (paddr - PAGE_SIZE) as u32);
    }
    assert(ident_regions(kb, (paddr + PAGE_SIZE) as u32) == vpn1(paddr) - vpn1(kb) + 1);
    if pte_valid(outer_entry(mpre, root, t1)) {
        assert(kb < paddr && vpn1(kb) <= t1 <= vpn1((paddr - PAGE_SIZE) as u32));
        assert(vpn1(paddr) == vpn1((paddr - PAGE_SIZE) as u32));
    } else {
        if paddr > kb {
            assert(!(vpn1(kb) <= t1 <= vpn1((paddr - PAGE_SIZE) as u32)));
            assert(vpn1(paddr) == vpn1((paddr - PAGE_SIZE) as u32) + 1);
        }
        assert(ident_regions(kb, (paddr + PAGE_SIZE) as u32) == ident_regions(kb, paddr) + 1);
    }
    assert forall|t: int| 0 <= t < NUM_PTE implies (pte_valid(
        #[trigger] outer_entry(m, root, t),
    ) <==> (vpn1(kb) <= t <= vpn1(paddr))) by {
        if t != t1 {
            assert(outer_entry(m, root, t) == outer_entry(mpre, root, t));
        }
    }
}

/// Step piece: the identity translation extends over the new page.
proof fn lemma_ident_step_walk(mpre: PhysMem, m: PhysMem, root: u32, kb: u32, paddr: u32, fl: u32)
    requires
        fl | PAGE_V == 0xfu32,
        forall|v: u32|
            page_aligned(v) && kb <= v < paddr ==> #[trigger] walk(mpre, root, v) == Some(
                (v, 0xfu32),
            ),
        walk(m, root, paddr) == Some((paddr, fl | PAGE_V)),
        forall|v: u32| page_aligned(v) && v != paddr ==> walk(m, root, v) == walk(mpre, root, v),
        page_aligned(paddr),
    ensures
        forall|v: u32|
            page_aligned(v) && kb <= v < paddr + PAGE_SIZE ==> #[trigger] walk(m, root, v)
                == Some((v, 0xfu32)),
{
    assert forall|v: u32| page_aligned(v) && kb <= v < paddr + PAGE_SIZE implies #[trigger] walk(
        m,
        root,
        v,
    ) == Some((v, 0xfu32)) by {
        if v != paddr {
            assert(v < paddr) by {
                lemma_page_disjoint(v, paddr);
            }
            assert(walk(m, root, v) == walk(mpre, root, v));
        }
    }
}

/// Step piece: older allocations stay untouched, and the new table
/// still owns only pages this build allocated.
proof fn lemma_ident_step_frame(mpre: PhysMem, m: PhysMem, root: u32, mem0: PhysMem)
    requires
        mem0.next <= mpre.next,
        mem0.base == mpre.base,
        mem0.end == mpre.end,
        forall|a: u32| mem0.word_addr(a) && a < mem0.next ==> mpre.word(a) == mem0.word(a),
        forall|a: u32| mem0.word_addr(a) && pt_owns(mpre, root, a) ==> mem0.next <= a,
        forall|a: u32|
            mpre.word_addr(a) && a < mpre.next && !pt_owns(mpre, root, a) ==> m.word(a)
                == mpre.word(a),
        forall|a: u32|
            mpre.word_addr(a) && pt_owns(m, root, a) ==> pt_owns(mpre, root, a) || mpre.next <= a,
    ensures
        forall|a: u32| mem0.word_addr(a) && a < mem0.next ==> m.word(a) == mem0.word(a),
        forall|a: u32| mem0.word_addr(a) && pt_owns(m, root, a) ==> mem0.next <= a,
{
    assert forall|a: u32| mem0.word_addr(a) && a < mem0.next implies m.word(a) == mem0.word(
        a,
    ) by {
        assert(!pt_owns(mpre, root, a));
        assert(m.word(a) == mpre.word(a));
    }
    assert forall|a: u32| mem0.word_addr(a) && pt_owns(m, root, a) implies mem0.next <= a by {
        assert(mpre.word_addr(a));
        assert(pt_owns(mpre, root, a) || mpre.next <= a);
    }
}

/// One step of the identity-map build: mapping the page at `paddr`
/// carries the invariant one page forward.
#[verifier::rlimit(100)]
pub proof fn lemma_ident_step(mpre: PhysMem, m: PhysMem, mem0: PhysMem, root: u32, kb: u32, end: u32, paddr: u32, fl: u32)
    requires
        ident_build_inv(mpre, mem0, root, kb, end, paddr),
        paddr < end,
        map_page_ok_post(mpre, m, root, paddr, paddr, fl),
        fl | PAGE_V == 0xfu32,
    ensures
        ident_build_inv(m, mem0, root, kb, end, (paddr + PAGE_SIZE) as u32),
{
    reveal(ident_build_inv);
    reveal(map_page_ok_post);
    let paddr2 = (paddr + PAGE_SIZE) as u32;
    assert((paddr2 - PAGE_SIZE) as u32 == paddr);
    assert(page_aligned(paddr2)) by {
        assert((paddr2 % 4096) == 0) by (nonlinear_arith)
            requires
                paddr % 4096 == 0,
                paddr2 == paddr + 4096,
        ;
    }
    lemma_ident_step_outer(mpre, m, root, kb, end, paddr, mem0.next as int);
    lemma_ident_step_walk(mpre, m, root, kb, paddr, fl);
    lemma_ident_step_frame(mpre, m, root, mem0);
    assert(kb < paddr2);
}

/// When the allocator comes up short in the middle of an identity-map
/// build, the whole build could never have fit: the pages needed for
/// `[kb, end)` exceed what the region had left at the start.
pub proof fn lemma_ident_oom(mpre: PhysMem, mem0: PhysMem, root: u32, kb: u32, end: u32, paddr: u32)
    requires
        ident_build_inv(mpre, mem0, root, kb, end, paddr),
        paddr < end,
        !pte_valid(outer_entry(mpre, root, vpn1(paddr) as int)),
        mpre.next + PAGE_SIZE > end,
    ensures
        mem0.next + ident_pages_needed(kb, end) * PAGE_SIZE > end,
{
    reveal(ident_build_inv);
    lemma_vpn_bounds(paddr);
    lemma_vpn1_monotone(paddr, (end - PAGE_SIZE) as u32);
    if paddr > kb {
        lemma_vpn1_step((paddr - PAGE_SIZE) as u32);
        lemma_vpn1_monotone(kb, (paddr - PAGE_SIZE) as u32);
        assert(vpn1(paddr) > vpn1((paddr - PAGE_SIZE) as u32));
    }
    assert(ident_regions(kb, end) >= ident_regions(kb, paddr) + 1);
}

} // verus!
