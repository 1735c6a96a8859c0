use tg_rcore_tutorial::memory::{align_up, plan_reservation, KernelAllocator, Reservation, VirtioHal, PAGE_SIZE};

fn claim(r: Reservation) -> Option<(usize, usize)> {
    match r {
        Reservation::Claim { start, end } => Some((start, end)),
        Reservation::Exhausted => None,
    }
}

#[test]
fn align_up_rounds_to_the_next_multiple() {
    assert_eq!(align_up(13, 8), 16);
    assert_eq!(align_up(16, 8), 16);
    assert_eq!(align_up(0, 4096), 0);
    assert_eq!(align_up(4097, 4096), 8192);
    assert_eq!(align_up(7, 1), 7);
}

#[test]
fn reservations_bump_through_the_region() {
    let first = claim(plan_reservation(0x1000, 64, 0, 10, 16));
    assert_eq!(first, Some((0x1000, 10)));
    let second = claim(plan_reservation(0x1000, 64, 10, 8, 16));
    assert_eq!(second, Some((0x1010, 24)));
    let third = claim(plan_reservation(0x1000, 64, 24, 64, 16));
    assert_eq!(third, None);
}

#[test]
fn empty_request_takes_one_byte() {
    assert_eq!(claim(plan_reservation(0x2000, 8, 3, 0, 1)), Some((0x2003, 4)));
}

#[test]
fn request_filling_the_region_exactly_fits() {
    assert_eq!(claim(plan_reservation(0x2000, 8, 0, 8, 8)), Some((0x2000, 8)));
    assert_eq!(claim(plan_reservation(0x2000, 8, 0, 9, 8)), None);
}

#[test]
fn address_overflow_is_exhaustion() {
    assert_eq!(claim(plan_reservation(usize::MAX, 16, 1, 1, 1)), None);
}

#[test]
fn heap_and_dma_plans() {
    let heap = KernelAllocator { heap_size: 512 * 1024 };
    assert_eq!(claim(heap.alloc_plan(0x8020_0008, 0, 32, 16)), Some((0x8020_0010, 40)));
    let hal = VirtioHal { dma_size: 4 * PAGE_SIZE };
    assert_eq!(claim(hal.dma_alloc_plan(0x9000_0000, 0, 2)), Some((0x9000_0000, 2 * PAGE_SIZE)));
    assert_eq!(claim(hal.dma_alloc_plan(0x9000_0000, 1, 2)), Some((0x9000_1000, 3 * PAGE_SIZE)));
    assert_eq!(claim(hal.dma_alloc_plan(0x9000_0000, 3 * PAGE_SIZE, 2)), None);
    assert_eq!(hal.dma_dealloc(0x9000_0000, 2), 0);
    assert_eq!(hal.phys_to_virt(0x1234), 0x1234);
    assert_eq!(hal.virt_to_phys(0x5678), 0x5678);
}
