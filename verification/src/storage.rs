//! The interrupt-driven block-device check: which interrupts finish the pending
//! request, the test pattern written to the disk, and the comparison of what came
//! back.
use vstd::prelude::*;

verus! {

/// Interrupt line of the first VirtIO device.
pub const VIRTIO0_IRQ: u32 = 1;
/// Bytes in a disk block.
pub const BLOCK_SIZE: usize = 512;
/// The text at the start of the test block.
pub const TEST_BANNER: [u8; 25] = [
    116, 103, 45, 115, 116, 111, 114, 97, 103, 101, 32, 105, 110, 116, 101, 114, 114, 117, 112,
    116, 32, 112, 97, 116, 104,
];

/// Whether interrupt `irq` comes from the block device, whose finished requests must
/// then be collected.
pub fn is_block_irq(irq: u32) -> (r: bool)
    ensures
        r == (irq == VIRTIO0_IRQ),
{
    irq == VIRTIO0_IRQ
}

/// What handling an external interrupt decided.
pub struct IrqOutcome {
    /// Whether the request the kernel waits for has finished.
    pub request_done: bool,
    /// Whether the interrupt must be reported complete to the interrupt controller.
    pub complete: bool,
}

/// Handles interrupt `irq`: for the block device, the pending request is done once
/// its token `request_token` is among the `finished` tokens the device handed back;
/// any interrupt but 0 is then completed.
pub fn handle_external_interrupt(irq: u32, finished: &[u16], request_token: u16, request_done: bool) -> (r: IrqOutcome)
    ensures
        r.request_done == (request_done || (irq == VIRTIO0_IRQ && finished@.contains(request_token))),
        r.complete == (irq != 0),
{
    let mut done = request_done;
    if is_block_irq(irq) {
        let mut i: usize = 0;
        while i < finished.len()
            invariant
                i <= finished@.len(),
                irq == VIRTIO0_IRQ,
                done == (request_done || exists|j: int| 0 <= j < i && #[trigger] finished@[j] == request_token),
            decreases finished@.len() - i,
        {
            if finished[i] == request_token {
                done = true;
            }
            i = i + 1;
        }
    }
    IrqOutcome { request_done: done, complete: irq != 0 }
}

/// Byte `i` of the test block: the banner, then each byte's own index modulo 256.
pub open spec fn pattern_byte(i: int) -> u8 {
    if i < 25 { TEST_BANNER@[i] } else { (i % 256) as u8 }
}

/// The block written to the disk and expected back.
pub fn fill_write_buffer() -> (r: Vec<u8>)
    ensures
        r@.len() == BLOCK_SIZE,
        forall|i: int| 0 <= i < BLOCK_SIZE ==> r@[i] == pattern_byte(i),
{
    let mut buf: Vec<u8> = Vec::new();
    let mut i: usize = 0;
    while i < BLOCK_SIZE
        invariant
            i <= BLOCK_SIZE,
            buf@.len() == i,
            forall|j: int| 0 <= j < i ==> buf@[j] == pattern_byte(j),
        decreases BLOCK_SIZE - i,
    {
        let byte: u8 = if i < 25 {
            TEST_BANNER[i]
        } else {
            assert(i & 0xff == i % 256 && i & 0xff < 256) by (bit_vector);
            (i & 0xff) as u8
        };
        buf.push(byte);
        i = i + 1;
    }
    buf
}

/// Whether the block read back equals the one written.
pub fn verify_buffers(written: &[u8], read: &[u8]) -> (r: bool)
    ensures
        r == (written@ == read@),
{
    if written.len() != read.len() {
        return false;
    }
    let mut i: usize = 0;
    while i < written.len()
        invariant
            i <= written@.len(),
            written@.len() == read@.len(),
            forall|j: int| 0 <= j < i ==> written@[j] == read@[j],
        decreases written@.len() - i,
    {
        if written[i] != read[i] {
            return false;
        }
        i = i + 1;
    }
    assert(written@ =~= read@);
    true
}

} // verus!
