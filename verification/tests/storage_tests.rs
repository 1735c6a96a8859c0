use tg_rcore_tutorial::storage::{fill_write_buffer, handle_external_interrupt, is_block_irq, verify_buffers, BLOCK_SIZE, VIRTIO0_IRQ};

#[test]
fn block_interrupt_finishes_the_matching_request() {
    assert!(is_block_irq(VIRTIO0_IRQ));
    assert!(!is_block_irq(2));
    let out = handle_external_interrupt(VIRTIO0_IRQ, &[3, 7], 7, false);
    assert!(out.request_done && out.complete);
    let out = handle_external_interrupt(VIRTIO0_IRQ, &[3], 7, false);
    assert!(!out.request_done && out.complete);
    let out = handle_external_interrupt(VIRTIO0_IRQ, &[], 7, true);
    assert!(out.request_done);
}

#[test]
fn other_interrupts_finish_nothing() {
    let out = handle_external_interrupt(5, &[7], 7, false);
    assert!(!out.request_done && out.complete);
    let out = handle_external_interrupt(0, &[], 7, false);
    assert!(!out.request_done && !out.complete);
}

#[test]
fn the_test_block_starts_with_its_banner() {
    let buf = fill_write_buffer();
    assert_eq!(buf.len(), BLOCK_SIZE);
    assert_eq!(&buf[..25], b"tg-storage interrupt path");
    assert_eq!(buf[25], 25);
    assert_eq!(buf[300], 44);
    assert_eq!(buf[511], 255);
}

#[test]
fn buffers_compare_byte_for_byte() {
    let a = fill_write_buffer();
    let mut b = a.clone();
    assert!(verify_buffers(&a, &b));
    b[100] ^= 1;
    assert!(!verify_buffers(&a, &b));
    assert!(!verify_buffers(&a, &a[..10]));
}
