use tg_rcore_tutorial::elf::{
    elf_entry, load_plan, EM_RISCV, plan_segment, plan_segments, ProgramHeader, ET_EXEC, PF_R, PF_W, PF_X, USER_STACK_END_PAGE,
    USER_STACK_PAGES, USER_STACK_TOP,
};

fn header(loadable: bool, offset: usize, file_size: usize, vaddr: usize, mem_size: usize, flags: u32) -> ProgramHeader {
    ProgramHeader { loadable, offset, file_size, vaddr, mem_size, flags }
}

#[test]
fn only_riscv_executables_have_an_entry() {
    assert_eq!(elf_entry(true, ET_EXEC, EM_RISCV, 0x1_0000), Some(0x1_0000));
    assert_eq!(elf_entry(true, 3, EM_RISCV, 0x1_0000), None);
    assert_eq!(elf_entry(true, ET_EXEC, 0x3e, 0x1_0000), None);
    assert_eq!(elf_entry(false, ET_EXEC, EM_RISCV, 0x1_0000), None);
}

#[test]
fn a_segment_maps_the_pages_it_touches() {
    let ph = header(true, 0x123, 0x100, 0x1000_0123, 0x2000, PF_R | PF_X);
    let plan = plan_segment(&ph, 0x1000).unwrap();
    assert_eq!(plan.first_page, 0x10000);
    assert_eq!(plan.end_page, 0x10003);
    assert_eq!(plan.page_offset, 0x123);
    assert_eq!((plan.data_start, plan.data_len), (0x123, 0x100));
    assert_eq!(&plan.flags, b"UX_RV");
}

#[test]
fn page_aligned_segment_ends_on_its_page() {
    let ph = header(true, 0x1000, 0x1000, 0x2000, 0x1000, PF_R | PF_W);
    let plan = plan_segment(&ph, 0x2000).unwrap();
    assert_eq!((plan.first_page, plan.end_page), (2, 3));
    assert_eq!(&plan.flags, b"U_WRV");
}

#[test]
fn other_segments_are_skipped() {
    let note = header(false, 0, 0, 0, 0, 0);
    assert!(plan_segment(&note, 0).is_none());
    let text = header(true, 0, 0x10, 0x1000, 0x10, PF_X);
    let data = header(true, 0x10, 0x8, 0x2010, 0x20, PF_R | PF_W);
    let plans = plan_segments(&vec![note, text, note, data], 0x40);
    assert_eq!(plans.len(), 2);
    assert_eq!(&plans[0].flags, b"UX__V");
    assert_eq!(plans[1].first_page, 2);
    assert_eq!(plans[1].page_offset, 0x10);
}

#[test]
fn the_user_stack_sits_below_its_top() {
    assert_eq!(USER_STACK_END_PAGE, 1 << 26);
    assert_eq!(USER_STACK_PAGES, 2);
    assert_eq!(USER_STACK_TOP, 1 << 38);
}

fn put(buf: &mut Vec<u8>, off: usize, value: u64, n: usize) {
    for k in 0..n {
        buf[off + k] = (value >> (8 * k)) as u8;
    }
}

fn sample_image(machine: u64, ph_count: u64, load_offset: u64) -> Vec<u8> {
    let mut image = vec![0u8; 176];
    image[..4].copy_from_slice(&[0x7f, b'E', b'L', b'F']);
    image[4] = 2;
    image[5] = 1;
    image[6] = 1;
    put(&mut image, 16, 2, 2);
    put(&mut image, 18, machine, 2);
    put(&mut image, 20, 1, 4);
    put(&mut image, 24, 0x1_0000, 8);
    put(&mut image, 32, 64, 8);
    put(&mut image, 52, 64, 2);
    put(&mut image, 54, 56, 2);
    put(&mut image, 56, ph_count, 2);
    put(&mut image, 64, 1, 4);
    put(&mut image, 68, (PF_R | PF_X) as u64, 4);
    put(&mut image, 72, load_offset, 8);
    put(&mut image, 80, 0x1_0000, 8);
    put(&mut image, 96, 0xb0, 8);
    put(&mut image, 104, 0xb0, 8);
    put(&mut image, 120, 4, 4);
    image
}

#[test]
fn load_plan_reads_entry_and_loadable_segments() {
    let (entry, plans) = load_plan(&sample_image(0xf3, 2, 0)).unwrap();
    assert_eq!(entry, 0x1_0000);
    assert_eq!(plans.len(), 1);
    assert_eq!((plans[0].first_page, plans[0].end_page), (0x10, 0x11));
    assert_eq!((plans[0].data_start, plans[0].data_len), (0, 0xb0));
    assert_eq!(&plans[0].flags, b"UX_RV");
}

#[test]
fn load_plan_refuses_what_cannot_be_loaded() {
    assert!(load_plan(&sample_image(0x3e, 2, 0)).is_none());
    assert!(load_plan(&sample_image(0xf3, 2, 1)).is_none());
    assert!(load_plan(&sample_image(0xf3, 40, 0)).is_none());
    assert!(load_plan(&[0u8; 10]).is_none());
    let (_, none) = load_plan(&sample_image(0xf3, 0, 0)).unwrap();
    assert!(none.is_empty());
}

#[test]
fn load_plan_reads_images_at_any_address() {
    let image = sample_image(0xf3, 2, 0);
    let mut shifted = vec![0u8];
    shifted.extend_from_slice(&image);
    let (entry, plans) = load_plan(&shifted[1..]).unwrap();
    assert_eq!(entry, 0x1_0000);
    assert_eq!(plans.len(), 1);
    let mut odd_table = sample_image(0xf3, 1, 0);
    odd_table.push(0);
    odd_table.copy_within(64..176, 65);
    put(&mut odd_table, 32, 65, 8);
    let (_, plans) = load_plan(&odd_table).unwrap();
    assert_eq!(plans.len(), 1);
    assert_eq!(&plans[0].flags, b"UX_RV");
}
