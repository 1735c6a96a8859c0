//! The kernel's own address space: every kernel section, the heap after the image,
//! the trampoline page and the device registers, each mapped onto the same
//! physical pages (except the trampoline) with the permissions its kind needs.
use vstd::prelude::*;
use crate::elf::{PAGE_SIZE, PAGE_MASK};

verus! {

/// The kind of a section of the kernel image.
#[derive(Clone, Copy, Debug, PartialEq, Eq, Structural)]
pub enum RegionKind {
    Text,
    Rodata,
    Data,
    Boot,
}

/// A section of the kernel image: bytes `[start, end)`.
#[derive(Clone, Copy, Debug, PartialEq, Eq, Structural)]
pub struct Region {
    pub kind: RegionKind,
    pub start: usize,
    pub end: usize,
}

/// One mapping: pages `[first_page, end_page)` onto frames from `first_frame`, with
/// the page-table flag text `flags`.
pub struct Mapping {
    pub first_page: usize,
    pub end_page: usize,
    pub first_frame: usize,
    pub flags: Vec<u8>,
}

/// `X_RV`: code runs and is read.
pub open spec fn text_flags() -> Seq<u8> {
    seq![88u8, 95u8, 82u8, 86u8]
}

/// `__RV`: read only.
pub open spec fn rodata_flags() -> Seq<u8> {
    seq![95u8, 95u8, 82u8, 86u8]
}

/// `_WRV`: read and written.
pub open spec fn data_flags() -> Seq<u8> {
    seq![95u8, 87u8, 82u8, 86u8]
}

/// `__G_XWRV`: the trampoline, global and fully accessible to the kernel.
pub open spec fn portal_flags() -> Seq<u8> {
    seq![95u8, 95u8, 71u8, 95u8, 88u8, 87u8, 82u8, 86u8]
}

pub open spec fn region_flags(kind: RegionKind) -> Seq<u8> {
    match kind {
        RegionKind::Text => text_flags(),
        RegionKind::Rodata => rodata_flags(),
        RegionKind::Data | RegionKind::Boot => data_flags(),
    }
}

/// Bytes `[start, end)` whose page-rounded end fits in a machine word.
pub open spec fn range_ok(start: usize, end: int) -> bool {
    end + PAGE_MASK <= usize::MAX
}

/// The pages covering bytes `[start, end)`, each mapped onto the frame of the same number.
pub open spec fn identity_mapping(m: Mapping, start: int, end: int, flags: Seq<u8>) -> bool {
    &&& m.first_page == start / (PAGE_SIZE as int)
    &&& m.end_page == (end + PAGE_MASK) / (PAGE_SIZE as int)
    &&& m.first_frame == m.first_page
    &&& m.flags@ == flags
}

fn flag_text(kind: u8) -> (r: Vec<u8>)
    ensures
        kind == 0 ==> r@ == text_flags(),
        kind == 1 ==> r@ == rodata_flags(),
        kind == 2 ==> r@ == data_flags(),
        kind >= 3 ==> r@ == portal_flags(),
{
    let r = if kind == 0 {
        vec![88u8, 95, 82, 86]
    } else if kind == 1 {
        vec![95u8, 95, 82, 86]
    } else if kind == 2 {
        vec![95u8, 87, 82, 86]
    } else {
        vec![95u8, 95, 71, 95, 88, 87, 82, 86]
    };
    assert(kind == 0 ==> r@ =~= text_flags());
    assert(kind == 1 ==> r@ =~= rodata_flags());
    assert(kind == 2 ==> r@ =~= data_flags());
    assert(kind >= 3 ==> r@ =~= portal_flags());
    r
}

fn identity(start: usize, end: usize, kind: u8) -> (m: Mapping)
    requires
        range_ok(start, end as int),
    ensures
        kind == 0 ==> identity_mapping(m, start as int, end as int, text_flags()),
        kind == 1 ==> identity_mapping(m, start as int, end as int, rodata_flags()),
        kind == 2 ==> identity_mapping(m, start as int, end as int, data_flags()),
{
    let first = start / PAGE_SIZE;
    Mapping { first_page: first, end_page: (end + PAGE_MASK) / PAGE_SIZE, first_frame: first, flags: flag_text(kind) }
}

/// Plans the kernel address space: the image sections in order, then the heap from
/// the end of the image to `memory` bytes after its start, then the trampoline page
/// `portal_page` onto frame `portal_frame`, then each device register window
/// `(base, len)` of `mmio`.
pub fn kernel_space(regions: &[Region], image_start: usize, image_end: usize, memory: usize,
    portal_page: usize, portal_frame: usize, mmio: &[(usize, usize)]) -> (r: Vec<Mapping>)
    requires
        forall|i: int| 0 <= i < regions@.len() ==> range_ok((#[trigger] regions@[i]).start, regions@[i].end as int),
        range_ok(image_end, image_start + memory),
        portal_page < usize::MAX,
        forall|j: int| 0 <= j < mmio@.len() ==> range_ok((#[trigger] mmio@[j]).0, mmio@[j].0 + mmio@[j].1),
    ensures
        r@.len() == regions@.len() + 2 + mmio@.len(),
        forall|i: int| 0 <= i < regions@.len() ==> identity_mapping(#[trigger] r@[i], regions@[i].start as int,
            regions@[i].end as int, region_flags(regions@[i].kind)),
        identity_mapping(r@[regions@.len() as int], image_end as int, image_start + memory, data_flags()),
        r@[regions@.len() + 1int].first_page == portal_page,
        r@[regions@.len() + 1int].end_page == portal_page + 1,
        r@[regions@.len() + 1int].first_frame == portal_frame,
        r@[regions@.len() + 1int].flags@ == portal_flags(),
        forall|j: int| 0 <= j < mmio@.len() ==> identity_mapping(#[trigger] r@[regions@.len() + 2int + j], mmio@[j].0 as int,
            mmio@[j].0 + mmio@[j].1, data_flags()),
{
    let mut r: Vec<Mapping> = Vec::new();
    let mut i: usize = 0;
    while i < regions.len()
        invariant
            i <= regions@.len(),
            r@.len() == i,
            forall|k: int| 0 <= k < regions@.len() ==> range_ok((#[trigger] regions@[k]).start, regions@[k].end as int),
            forall|k: int| 0 <= k < i ==> identity_mapping(#[trigger] r@[k], regions@[k].start as int,
                regions@[k].end as int, region_flags(regions@[k].kind)),
        decreases regions@.len() - i,
    {
        let region = regions[i];
        let kind: u8 = match region.kind {
            RegionKind::Text => 0,
            RegionKind::Rodata => 1,
            RegionKind::Data | RegionKind::Boot => 2,
        };
        r.push(identity(region.start, region.end, kind));
        i = i + 1;
    }
    let heap_end = image_start + memory;
    r.push(identity(image_end, heap_end, 2));
    r.push(Mapping { first_page: portal_page, end_page: portal_page + 1, first_frame: portal_frame, flags: flag_text(3) });
    let n = r.len();
    let mut j: usize = 0;
    while j < mmio.len()
        invariant
            j <= mmio@.len(),
            n == regions@.len() + 2,
            r@.len() == n + j,
            forall|k: int| 0 <= k < mmio@.len() ==> range_ok((#[trigger] mmio@[k]).0, mmio@[k].0 + mmio@[k].1),
            forall|k: int| 0 <= k < regions@.len() ==> identity_mapping(#[trigger] r@[k], regions@[k].start as int,
                regions@[k].end as int, region_flags(regions@[k].kind)),
            identity_mapping(r@[regions@.len() as int], image_end as int, image_start + memory, data_flags()),
            r@[regions@.len() + 1int].first_page == portal_page,
            r@[regions@.len() + 1int].end_page == portal_page + 1,
            r@[regions@.len() + 1int].first_frame == portal_frame,
            r@[regions@.len() + 1int].flags@ == portal_flags(),
            forall|k: int| 0 <= k < j ==> identity_mapping(#[trigger] r@[regions@.len() + 2int + k], mmio@[k].0 as int,
                mmio@[k].0 + mmio@[k].1, data_flags()),
        decreases mmio@.len() - j,
    {
        let (base, len) = mmio[j];
        r.push(identity(base, base + len, 2));
        j = j + 1;
    }
    r
}

} // verus!
