use tg_rcore_tutorial::fs_index::FileIndex;
use tg_rcore_tutorial::syscall::{
    first_free_slot, framebuffer_info, lseek_offset, make_satp, map_open_flags, piece_exit_code, plan_flush,
    run_piece, ticks_ms, timespec_from_ticks, timeval_of, translate_event, translate_input_key, user_segments, FramebufferInfo,
    InputKeyEvent, TimeSpec, EV_KEY, FRAMEBUFFER_FORMAT_BGRX8888, O_CREAT, O_RDONLY, O_RDWR, O_TRUNC, O_WRONLY,
    SEEK_CUR, SEEK_END, SEEK_SET,
};

#[test]
fn keys_translate_to_doom_codes() {
    assert_eq!(translate_input_key(1), Some(27));
    assert_eq!(translate_input_key(30), Some(b'a' as u16));
    assert_eq!(translate_input_key(57), Some(0xa2));
    assert_eq!(translate_input_key(29), Some(0x80 + 0x1d));
    assert_eq!(translate_input_key(103), Some(0xad));
    assert_eq!(translate_input_key(12), None);
    assert_eq!(translate_input_key(500), None);
    for code in 16u16..=25 {
        let k = translate_input_key(code).unwrap();
        assert!((b'a' as u16..=b'z' as u16).contains(&k));
    }
}

#[test]
fn only_key_events_with_known_keys_come_through() {
    assert_eq!(translate_event(EV_KEY, 30, 1), Some(InputKeyEvent { key: 97, pressed: 1 }));
    assert_eq!(translate_event(EV_KEY, 30, 2), Some(InputKeyEvent { key: 97, pressed: 1 }));
    assert_eq!(translate_event(EV_KEY, 30, 0), Some(InputKeyEvent { key: 97, pressed: 0 }));
    assert_eq!(translate_event(2, 30, 1), None);
    assert_eq!(translate_event(EV_KEY, 12, 1), None);
}

#[test]
fn lseek_moves_from_start_current_or_end() {
    assert_eq!(lseek_offset(SEEK_SET, 5, 100, 200), 5);
    assert_eq!(lseek_offset(SEEK_CUR, -10, 100, 200), 90);
    assert_eq!(lseek_offset(SEEK_END, 3, 100, 200), 203);
    assert_eq!(lseek_offset(SEEK_SET, -1, 100, 200), -1);
    assert_eq!(lseek_offset(SEEK_CUR, -101, 100, 200), -1);
    assert_eq!(lseek_offset(7, 0, 100, 200), -1);
}

#[test]
fn flush_requests_are_checked_and_centred() {
    assert!(plan_flush(100, 0, 1, 4, 640, 400, 2560).is_none());
    assert!(plan_flush(100, 10, 1, 39, 640, 400, 2560).is_none());
    assert!(plan_flush(79, 10, 2, 40, 640, 400, 2560).is_none());
    assert!(plan_flush(100, 1, 2, usize::MAX, 640, 400, 2560).is_none());
    let plan = plan_flush(320 * 4 * 200, 320, 200, 320 * 4, 640, 400, 2560).unwrap();
    assert_eq!(plan.rows, 200);
    assert_eq!(plan.row_bytes, 1280);
    assert_eq!((plan.dst_x, plan.dst_y), (160, 100));
    assert_eq!(plan.row_offsets(0), (0, 100 * 2560 + 160 * 4));
    assert_eq!(plan.row_offsets(3), (3 * 1280, 103 * 2560 + 640));
    let big = plan_flush(1000 * 4 * 500, 1000, 500, 4000, 640, 400, 2560).unwrap();
    assert_eq!((big.rows, big.row_bytes, big.dst_x, big.dst_y), (400, 2560, 0, 0));
}

#[test]
fn clock_ticks_become_nanoseconds() {
    let ts = timespec_from_ticks(12_500_000);
    assert_eq!(ts, TimeSpec { tv_sec: 1, tv_nsec: 0 });
    let ts = timespec_from_ticks(12_500_001);
    assert_eq!(ts, TimeSpec { tv_sec: 1, tv_nsec: 80 });
    assert_eq!(ticks_ms(TimeSpec { tv_sec: 2, tv_nsec: 345_678_901 }), 2345);
}

#[test]
fn user_buffers_split_at_page_boundaries() {
    assert_eq!(user_segments(0x1ff0, 0x30), vec![(0x1ff0, 0x10), (0x2000, 0x20)]);
    assert_eq!(user_segments(0x3000, 0x2000), vec![(0x3000, 0x1000), (0x4000, 0x1000)]);
    assert_eq!(user_segments(0x3000, 0), vec![]);
}

#[test]
fn satp_selects_sv39() {
    assert_eq!(make_satp(5), 0x8000_0000_0000_0005);
}

#[test]
fn tangram_programs_exit_with_their_piece() {
    assert_eq!(piece_exit_code(0, 3), 3);
    assert_eq!(piece_exit_code(-1, 3), 127);
    let mut asked = None;
    assert_eq!(run_piece(4, |id| { asked = Some(id); 0 }), 4);
    assert_eq!(asked, Some(4));
    assert_eq!(run_piece(4, |_| -1), 127);
}

#[test]
fn first_free_slot_reuses_holes() {
    assert_eq!(first_free_slot(&vec![Some(1), None, None]), Some(1));
    assert_eq!(first_free_slot(&vec![Some(1), Some(2)]), None);
    assert_eq!(first_free_slot::<u8>(&vec![]), None);
}

#[test]
fn framebuffer_info_reports_bgrx() {
    assert_eq!(
        framebuffer_info(640, 400, 2560),
        FramebufferInfo { width: 640, height: 400, stride: 2560, format: FRAMEBUFFER_FORMAT_BGRX8888 }
    );
}

#[test]
fn c_open_flags_map_to_kernel_flags() {
    assert_eq!(map_open_flags(O_RDONLY), 0);
    assert_eq!(map_open_flags(O_WRONLY | O_CREAT), 513);
    assert_eq!(map_open_flags(O_RDWR | O_TRUNC), 1026);
    assert_eq!(map_open_flags(3), 0);
    assert_eq!(map_open_flags(O_RDWR | O_CREAT | O_TRUNC | 0o4000), 1538);
}

#[test]
fn translated_flags_open_with_the_asked_access() {
    let mut index = FileIndex::new();
    let wo = index.open_file("f", map_open_flags(O_WRONLY | O_CREAT), false).unwrap();
    assert!(!wo.readable && wo.writable && wo.create);
    let rw = index.open_file("f", map_open_flags(O_RDWR | O_TRUNC), false).unwrap();
    assert!(rw.readable && rw.writable && rw.trunc && !rw.create);
    let ro = index.open_file("f", map_open_flags(O_RDONLY), false).unwrap();
    assert!(ro.readable && !ro.writable);
}

#[test]
fn gettimeofday_keeps_whole_microseconds() {
    let tv = timeval_of(TimeSpec { tv_sec: 3, tv_nsec: 123_456_789 });
    assert_eq!((tv.tv_sec, tv.tv_usec), (3, 123_456));
}
