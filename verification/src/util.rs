//! Byte-buffer utilities, the console writer's buffer model, and the
//! trap-time register frame.
//!
//! The byte routines work on explicitly bounded byte arenas instead of
//! raw pointers; each states exactly which bytes it reads and writes.

use vstd::prelude::*;

use vstd::string::{StrSliceExecFns, StringSliceAdditionalSpecFns};

verus! {

/// Index of the first zero byte of `s` at or after `i`, or `s.len()`
/// when there is none.
pub open spec fn nul_pos_from(s: Seq<u8>, i: int) -> int
    decreases s.len() - i,
{
    if i < 0 || i >= s.len() {
        s.len() as int
    } else if s[i] == 0 {
        i
    } else {
        nul_pos_from(s, i + 1)
    }
}

/// Length of the zero-terminated string at the start of `s`: the
/// index of its first zero byte.
pub open spec fn nul_pos(s: Seq<u8>) -> int {
    nul_pos_from(s, 0)
}

/// Index where a zero-terminated comparison of `a` against `b` stops,
/// scanning from `i`: the first position holding a zero in `a` or
/// bytes that differ (or the end of either buffer).
pub open spec fn cmp_pos_from(a: Seq<u8>, b: Seq<u8>, i: int) -> int
    decreases a.len() - i,
{
    if i < 0 || i >= a.len() || i >= b.len() {
        i
    } else if a[i] == 0 || a[i] != b[i] {
        i
    } else {
        cmp_pos_from(a, b, i + 1)
    }
}

/// The first-zero scan stays within bounds.
proof fn lemma_nul_pos_bounds(s: Seq<u8>, i: int)
    requires
        0 <= i <= s.len(),
    ensures
        i <= nul_pos_from(s, i) <= s.len(),
    decreases s.len() - i,
{
    if i < s.len() && s[i] != 0 {
        lemma_nul_pos_bounds(s, i + 1);
    }
}

/// Fill the first `count` bytes of `dest` with `val`.
pub fn memset(dest: &mut Vec<u8>, val: u8, count: usize)
    requires
        count <= old(dest).len(),
    ensures
        final(dest).len() == old(dest).len(),
        forall|i: int| 0 <= i < count ==> final(dest)[i] == val,
        forall|i: int| count <= i < old(dest).len() ==> final(dest)[i] == old(dest)[i],
{
    let mut i: usize = 0;
    while i < count
        invariant
            i <= count <= dest.len(),
            dest.len() == old(dest).len(),
            forall|j: int| 0 <= j < i ==> dest[j] == val,
            forall|j: int| i <= j < dest.len() ==> dest[j] == old(dest)[j],
        decreases count - i,
    {
        dest[i] = val;
        i = i + 1;
    }
}

/// Copy the first `n` bytes of `src` to the start of `dst`.
pub fn memcpy(dst: &mut Vec<u8>, src: &Vec<u8>, n: u32)
    requires
        n <= old(dst).len(),
        n <= src.len(),
    ensures
        final(dst).len() == old(dst).len(),
        forall|i: int| 0 <= i < n ==> final(dst)[i] == src[i],
        forall|i: int| n <= i < old(dst).len() ==> final(dst)[i] == old(dst)[i],
{
    let mut i: usize = 0;
    let count: usize = n as usize;
    while i < count
        invariant
            i <= count,
            count <= dst.len(),
            count <= src.len(),
            count == n,
            dst.len() == old(dst).len(),
            forall|j: int| 0 <= j < i ==> dst[j] == src[j],
            forall|j: int| i <= j < dst.len() ==> dst[j] == old(dst)[j],
        decreases count - i,
    {
        dst[i] = src[i];
        i = i + 1;
    }
}

/// Copy the zero-terminated string at the start of `src` (terminator
/// included) to the start of `dst`, returning its length.
pub fn strcpy(dst: &mut Vec<u8>, src: &Vec<u8>) -> (r: usize)
    requires
        // `src` holds a terminator, and `dst` has room for the string
        // and its terminator.
        nul_pos(src@) < src.len(),
        nul_pos(src@) < old(dst).len(),
    ensures
        r == nul_pos(src@),
        forall|i: int| 0 <= i <= r ==> final(dst)[i] == src[i],
        final(dst)[r as int] == 0,
        forall|i: int| r < i < old(dst).len() ==> final(dst)[i] == old(dst)[i],
        final(dst).len() == old(dst).len(),
{
    proof {
        lemma_nul_pos_bounds(src@, 0);
    }
    let mut i: usize = 0;
    while src[i] != 0
        invariant
            0 <= i <= nul_pos(src@),
            nul_pos(src@) < src.len(),
            nul_pos(src@) < dst.len(),
            nul_pos_from(src@, i as int) == nul_pos(src@),
            dst.len() == old(dst).len(),
            forall|j: int| 0 <= j < i ==> dst[j] == src[j],
            forall|j: int| i <= j < dst.len() ==> dst[j] == old(dst)[j],
        decreases src.len() - i,
    {
        proof {
            lemma_nul_pos_bounds(src@, i as int + 1);
            assert(nul_pos_from(src@, i as int) == nul_pos_from(src@, i as int + 1));
        }
        dst[i] = src[i];
        i = i + 1;
    }
    dst[i] = 0;
    proof {
        assert(i == nul_pos(src@));
        assert(final(dst)[i as int] == 0 && src[i as int] == 0);
    }
    i
}

/// Compare two zero-terminated strings byte by byte, stopping at the
/// first difference or at the end of the first string: negative,
/// zero or positive as the first compares below, equal to or above
/// the second.
pub fn strcmp(s1: &Vec<u8>, s2: &Vec<u8>) -> (r: i32)
    requires
        nul_pos(s1@) < s1.len(),
        nul_pos(s2@) < s2.len(),
    ensures
        ({
            let k = cmp_pos_from(s1@, s2@, 0);
            &&& (r == -1 <==> s1[k] < s2[k])
            &&& (r == 0 <==> s1[k] == s2[k])
            &&& (r == 1 <==> s1[k] > s2[k])
        }),
{
    proof {
        lemma_nul_pos_bounds(s1@, 0);
        lemma_nul_pos_bounds(s2@, 0);
    }
    let mut i: usize = 0;
    while s1[i] != 0 && s1[i] == s2[i]
        invariant
            0 <= i,
            i <= nul_pos(s1@),
            i <= nul_pos(s2@),
            nul_pos(s1@) < s1.len(),
            nul_pos(s2@) < s2.len(),
            nul_pos_from(s1@, i as int) == nul_pos(s1@),
            nul_pos_from(s2@, i as int) == nul_pos(s2@),
            cmp_pos_from(s1@, s2@, i as int) == cmp_pos_from(s1@, s2@, 0),
        decreases s1.len() - i,
    {
        proof {
            lemma_nul_pos_bounds(s1@, i as int + 1);
            lemma_nul_pos_bounds(s2@, i as int + 1);
            assert(nul_pos_from(s1@, i as int) == nul_pos_from(s1@, i as int + 1));
            assert(nul_pos_from(s2@, i as int) == nul_pos_from(s2@, i as int + 1));
            assert(cmp_pos_from(s1@, s2@, i as int) == cmp_pos_from(s1@, s2@, i as int + 1));
        }
        i = i + 1;
    }
    let a: u8 = s1[i];
    let b: u8 = s2[i];
    proof {
        assert(cmp_pos_from(s1@, s2@, i as int) == i);
    }
    if a < b {
        -1
    } else if a == b {
        0
    } else {
        1
    }
}

/// The console writer, modelled as a byte sink: what the firmware
/// call would print is appended to `buf`.
pub struct Writer {
    /// Every byte written so far, in order.
    pub buf: Vec<u8>,
}

impl Writer {
    /// A writer with nothing written yet.
    pub fn new() -> (w: Writer)
        ensures
            w.buf.len() == 0,
    {
        Writer { buf: Vec::new() }
    }

    /// Append the bytes of `s` to the sink, in order.
    pub fn write_str(&mut self, s: &str)
        ensures
            final(self).buf@ == old(self).buf@ + s.spec_bytes(),
    {
        let bytes: Vec<u8> = s.as_bytes_vec();
        let mut i: usize = 0;
        while i < bytes.len()
            invariant
                i <= bytes.len(),
                bytes@ == s.spec_bytes(),
                self.buf@ == old(self).buf@ + bytes@.take(i as int),
            decreases bytes.len() - i,
        {
            self.buf.push(bytes[i]);
            proof {
                assert(self.buf@ =~= old(self).buf@ + bytes@.take(i + 1));
            }
            i = i + 1;
        }
        proof {
            assert(bytes@.take(bytes@.len() as int) =~= bytes@);
        }
    }
}

/// The register frame the trap trampoline spills on entry: the full
/// general-purpose file except the zero register, with the interrupted
/// context's stack pointer last, in the exact order of the spill.
pub struct TrapFrame {
    pub ra: u32,
    pub gp: u32,
    pub tp: u32,
    pub t0: u32,
    pub t1: u32,
    pub t2: u32,
    pub t3: u32,
    pub t4: u32,
    pub t5: u32,
    pub t6: u32,
    pub a0: u32,
    pub a1: u32,
    pub a2: u32,
    pub a3: u32,
    pub a4: u32,
    pub a5: u32,
    pub a6: u32,
    pub a7: u32,
    pub s0: u32,
    pub s1: u32,
    pub s2: u32,
    pub s3: u32,
    pub s4: u32,
    pub s5: u32,
    pub s6: u32,
    pub s7: u32,
    pub s8: u32,
    pub s9: u32,
    pub s10: u32,
    pub s11: u32,
    pub sp: u32,
}

} // verus!
