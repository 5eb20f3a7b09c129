use minikernel::constants::{PAGE_R, PAGE_V, PAGE_W, PAGE_X};
use minikernel::error::KernelError;
use minikernel::paging::{map_page, walk_page, PhysMem};

/// A mapping followed by a walk yields the mapped physical address and
/// exactly the requested permission bits plus the valid bit, in a
/// region that was not previously materialized.
#[test]
fn map_then_walk_fresh_region() {
    let mut m = PhysMem::new(0, 0x10000);
    let root = m.alloc_pages(1).unwrap();
    let fl = PAGE_R | PAGE_W;
    assert_eq!(map_page(&mut m, root, 0x0040_0000, 0x3000, fl), Ok(()));
    assert_eq!(walk_page(&m, root, 0x0040_0000), Some((0x3000, 0x7)));
}

/// The entry encodings are bit-exact: a non-leaf entry holds the
/// inner table's page number shifted into the high bits plus the
/// valid bit, a leaf the frame number plus the permission bits.
#[test]
fn entry_bit_layout_is_exact() {
    let mut m = PhysMem::new(0, 0x10000);
    let root = m.alloc_pages(1).unwrap();
    assert_eq!(root, 0);
    let fl = PAGE_R | PAGE_W;
    assert_eq!(map_page(&mut m, root, 0x0040_0000, 0x3000, fl), Ok(()));
    // Outer index 1, so the outer entry sits at word address 4; the
    // inner table was allocated at 0x1000: entry (0x1000 >> 12) << 10
    // plus the valid bit.
    assert_eq!(m.read_word(4), 0x401);
    // Inner index 0: the leaf sits at the inner table's base, holding
    // (0x3000 >> 12) << 10 with flags R | W | V.
    assert_eq!(m.read_word(0x1000), (3 << 10) | 0x7);
}

/// A mapping into a region whose inner table already exists behaves
/// the same and allocates nothing.
#[test]
fn map_then_walk_existing_region() {
    let mut m = PhysMem::new(0, 0x10000);
    let root = m.alloc_pages(1).unwrap();
    assert_eq!(map_page(&mut m, root, 0x0040_0000, 0x3000, PAGE_R), Ok(()));
    let cursor = m.next;
    assert_eq!(map_page(&mut m, root, 0x0040_1000, 0x4000, PAGE_X), Ok(()));
    assert_eq!(m.next, cursor);
    assert_eq!(walk_page(&m, root, 0x0040_1000), Some((0x4000, PAGE_X | PAGE_V)));
}

/// An unmapped address walks to nothing.
#[test]
fn walk_unmapped_is_none() {
    let mut m = PhysMem::new(0, 0x10000);
    let root = m.alloc_pages(1).unwrap();
    assert_eq!(walk_page(&m, root, 0x0040_0000), None);
    assert_eq!(map_page(&mut m, root, 0x0040_0000, 0x3000, PAGE_R), Ok(()));
    // A sibling page of the same region is still unmapped.
    assert_eq!(walk_page(&m, root, 0x0040_1000), None);
}

/// A non-page-aligned virtual address is fatal and changes nothing.
#[test]
fn map_misaligned_vaddr_is_fatal() {
    let mut m = PhysMem::new(0, 0x10000);
    let root = m.alloc_pages(1).unwrap();
    let cursor = m.next;
    assert_eq!(
        map_page(&mut m, root, 0x0040_0010, 0x3000, PAGE_R),
        Err(KernelError::MisalignedAddress { addr: 0x0040_0010 })
    );
    assert_eq!(m.next, cursor);
}

/// A non-page-aligned physical address is fatal and changes nothing.
#[test]
fn map_misaligned_paddr_is_fatal() {
    let mut m = PhysMem::new(0, 0x10000);
    let root = m.alloc_pages(1).unwrap();
    assert_eq!(
        map_page(&mut m, root, 0x0040_0000, 0x3001, PAGE_R),
        Err(KernelError::MisalignedAddress { addr: 0x3001 })
    );
}

/// Remapping a mapped page overwrites only the leaf: the new walk
/// yields the new address, and a sibling entry of the same inner
/// table is not corrupted.
#[test]
fn remap_updates_leaf_without_corrupting_siblings() {
    let mut m = PhysMem::new(0, 0x10000);
    let root = m.alloc_pages(1).unwrap();
    let fl = PAGE_R | PAGE_W | PAGE_X;
    assert_eq!(map_page(&mut m, root, 0x0080_0000, 0x5000, fl), Ok(()));
    assert_eq!(map_page(&mut m, root, 0x0080_2000, 0x6000, fl), Ok(()));
    // Remap the first page to a different frame.
    assert_eq!(map_page(&mut m, root, 0x0080_0000, 0x7000, fl), Ok(()));
    assert_eq!(walk_page(&m, root, 0x0080_0000), Some((0x7000, fl | PAGE_V)));
    assert_eq!(walk_page(&m, root, 0x0080_2000), Some((0x6000, fl | PAGE_V)));
}

/// Mapping fails fatally when the allocator cannot supply the inner
/// table.
#[test]
fn map_out_of_memory_is_fatal() {
    let mut m = PhysMem::new(0, 0x1000);
    let root = m.alloc_pages(1).unwrap();
    assert_eq!(
        map_page(&mut m, root, 0x0040_0000, 0x3000, PAGE_R),
        Err(KernelError::OutOfPhysicalMemory)
    );
}
