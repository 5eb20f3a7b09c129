use minikernel::error::KernelError;
use minikernel::paging::PhysMem;

/// Successive allocations return addresses strictly increasing by
/// `n * PAGE_SIZE`.
#[test]
fn alloc_addresses_increase() {
    let mut m = PhysMem::new(0, 0x10000);
    let a = m.alloc_pages(1).unwrap();
    let b = m.alloc_pages(1).unwrap();
    let c = m.alloc_pages(2).unwrap();
    let d = m.alloc_pages(1).unwrap();
    assert_eq!(a, 0);
    assert_eq!(b, 4096);
    assert_eq!(c, 8192);
    assert_eq!(d, 16384);
}

/// Every word of a handed-out page reads as zero.
#[test]
fn alloc_pages_are_zero() {
    let mut m = PhysMem::new(0x1000, 0x5000);
    let a = m.alloc_pages(2).unwrap();
    let mut addr = a;
    while addr < a + 2 * 4096 {
        assert_eq!(m.read_word(addr), 0);
        addr += 4;
    }
}

/// An allocation that would pass the end of the free region is fatal,
/// and the cursor does not move.
#[test]
fn alloc_exhaustion_is_fatal() {
    let mut m = PhysMem::new(0, 0x4000);
    assert_eq!(m.alloc_pages(4), Ok(0));
    assert_eq!(m.alloc_pages(1), Err(KernelError::OutOfPhysicalMemory));
    assert_eq!(m.next, 0x4000);
}

/// A single oversized request fails without handing anything out.
#[test]
fn alloc_oversized_request_is_fatal() {
    let mut m = PhysMem::new(0, 0x4000);
    assert_eq!(m.alloc_pages(5), Err(KernelError::OutOfPhysicalMemory));
    assert_eq!(m.next, 0);
    assert_eq!(m.alloc_pages(4), Ok(0));
}

/// Allocating zero pages succeeds and does not move the cursor.
#[test]
fn alloc_zero_pages() {
    let mut m = PhysMem::new(0, 0x2000);
    assert_eq!(m.alloc_pages(0), Ok(0));
    assert_eq!(m.next, 0);
}
