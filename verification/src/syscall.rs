//! The pure parts of the system-call layer: keyboard translation, `lseek`,
//! framebuffer blits, clock conversion, user-buffer splitting and small helpers.
use vstd::prelude::*;
use crate::fs_index::{OPEN_WRONLY, OPEN_RDWR, OPEN_CREATE, OPEN_TRUNC, flag_set, read_write_spec};

verus! {

/// C `O_ACCMODE`: the access-mode bits of `open` flags.
pub const O_ACCMODE: i32 = 0o3;
/// C `O_RDONLY`.
pub const O_RDONLY: i32 = 0;
/// C `O_WRONLY`.
pub const O_WRONLY: i32 = 0o1;
/// C `O_RDWR`.
pub const O_RDWR: i32 = 0o2;
/// C `O_CREAT`.
pub const O_CREAT: i32 = 0o100;
/// C `O_TRUNC`.
pub const O_TRUNC: i32 = 0o1000;

/// The kernel's open flags for C `open` flags: the access mode (write only, read-write,
/// read only for anything else), plus `CREATE` for `O_CREAT` and `TRUNC` for `O_TRUNC`.
pub open spec fn open_flags_of(flags: i32) -> u32 {
    let access: u32 = if flags & O_ACCMODE == O_WRONLY {
        OPEN_WRONLY
    } else if flags & O_ACCMODE == O_RDWR {
        OPEN_RDWR
    } else {
        0
    };
    let create: u32 = if flags & O_CREAT != 0 { OPEN_CREATE } else { 0 };
    let trunc: u32 = if flags & O_TRUNC != 0 { OPEN_TRUNC } else { 0 };
    access | create | trunc
}

/// A file opened with translated C flags is created or emptied exactly when `O_CREAT`
/// or `O_TRUNC` was given, and gets the access C asked for: write only for
/// `O_WRONLY`, read-write for `O_RDWR`, read only for `O_RDONLY` alone.
pub proof fn law_open_flags_keep_meaning(flags: i32)
    requires
        flags & O_ACCMODE == O_RDONLY ==> flags & O_CREAT == 0 && flags & O_TRUNC == 0,
    ensures
        flag_set(open_flags_of(flags), OPEN_CREATE) == (flags & O_CREAT != 0),
        flag_set(open_flags_of(flags), OPEN_TRUNC) == (flags & O_TRUNC != 0),
        read_write_spec(open_flags_of(flags)) == (if flags & O_ACCMODE == O_WRONLY {
            (false, true)
        } else if flags & O_ACCMODE == O_RDWR {
            (true, true)
        } else if flags & O_ACCMODE == O_RDONLY {
            (true, false)
        } else {
            read_write_spec(open_flags_of(flags))
        }),
{
    assert(flag_set(open_flags_of(flags), OPEN_CREATE) == (flags & O_CREAT != 0)) by (bit_vector);
    assert(flag_set(open_flags_of(flags), OPEN_TRUNC) == (flags & O_TRUNC != 0)) by (bit_vector);
    assert(((open_flags_of(flags) & 0x603) & 1 == 1) == (flags & 3 == 1)) by (bit_vector);
    assert(flags & 3 == 2 ==> open_flags_of(flags) & 0x603 != 0) by (bit_vector);
    assert(flags & 3 == 1 ==> open_flags_of(flags) & 0x603 != 0) by (bit_vector);
    assert(flags & 3 == 0 && flags & 0o100 == 0 && flags & 0o1000 == 0
        ==> open_flags_of(flags) & 0x603 == 0) by (bit_vector);
}

/// Translates C `open` flags into the kernel's open flags.
pub fn map_open_flags(flags: i32) -> (r: u32)
    ensures
        r == open_flags_of(flags),
{
    let mode = flags & O_ACCMODE;
    let access: u32 = if mode == O_WRONLY {
        OPEN_WRONLY
    } else if mode == O_RDWR {
        OPEN_RDWR
    } else {
        0
    };
    let create: u32 = if flags & O_CREAT != 0 { OPEN_CREATE } else { 0 };
    let trunc: u32 = if flags & O_TRUNC != 0 { OPEN_TRUNC } else { 0 };
    access | create | trunc
}

/// `event_type` of a key event on a VirtIO input device.
pub const EV_KEY: u16 = 0x01;

/// Framebuffer pixel format: blue, green, red, padding; one byte each.
pub const FRAMEBUFFER_FORMAT_BGRX8888: u32 = 1;

/// Basic framebuffer metadata returned by the kernel.
#[derive(Clone, Copy, Debug, Default, PartialEq, Eq, Structural)]
pub struct FramebufferInfo {
    /// Visible width in pixels.
    pub width: u32,
    /// Visible height in pixels.
    pub height: u32,
    /// Bytes per scanline.
    pub stride: u32,
    /// One of the `FRAMEBUFFER_FORMAT_*` constants.
    pub format: u32,
}

/// A single translated key event for Doom's platform layer.
#[derive(Clone, Copy, Debug, Default, PartialEq, Eq, Structural)]
pub struct InputKeyEvent {
    /// Doom key code or ASCII byte.
    pub key: u16,
    /// Non-zero when the key is pressed, zero on release.
    pub pressed: u16,
}

/// The Doom key of a Linux input key code: ASCII for printable keys, Doom's codes
/// (0x80 + scan code, or its arrow codes) for the others.
pub open spec fn key_code(code: u16) -> Option<u16> {
    match code {
        1 => Some(27u16),
        2 => Some(49u16),
        3 => Some(50u16),
        4 => Some(51u16),
        5 => Some(52u16),
        6 => Some(53u16),
        7 => Some(54u16),
        8 => Some(55u16),
        9 => Some(56u16),
        10 => Some(57u16),
        11 => Some(48u16),
        14 => Some(0x7fu16),
        15 => Some(9u16),
        16 => Some(113u16),
        17 => Some(119u16),
        18 => Some(101u16),
        19 => Some(114u16),
        20 => Some(116u16),
        21 => Some(121u16),
        22 => Some(117u16),
        23 => Some(105u16),
        24 => Some(111u16),
        25 => Some(112u16),
        28 => Some(13u16),
        29 => Some((0x80 + 0x1d) as u16),
        30 => Some(97u16),
        31 => Some(115u16),
        32 => Some(100u16),
        33 => Some(102u16),
        34 => Some(103u16),
        35 => Some(104u16),
        36 => Some(106u16),
        37 => Some(107u16),
        38 => Some(108u16),
        42 | 54 => Some((0x80 + 0x36) as u16),
        44 => Some(122u16),
        45 => Some(120u16),
        46 => Some(99u16),
        47 => Some(118u16),
        48 => Some(98u16),
        49 => Some(110u16),
        50 => Some(109u16),
        56 | 100 => Some((0x80 + 0x38) as u16),
        57 => Some(0xa2u16),
        59 => Some((0x80 + 0x3b) as u16),
        60 => Some((0x80 + 0x3c) as u16),
        61 => Some((0x80 + 0x3d) as u16),
        62 => Some((0x80 + 0x3e) as u16),
        63 => Some((0x80 + 0x3f) as u16),
        64 => Some((0x80 + 0x40) as u16),
        65 => Some((0x80 + 0x41) as u16),
        66 => Some((0x80 + 0x42) as u16),
        67 => Some((0x80 + 0x43) as u16),
        68 => Some((0x80 + 0x44) as u16),
        87 => Some((0x80 + 0x57) as u16),
        88 => Some((0x80 + 0x58) as u16),
        103 => Some(0xadu16),
        105 => Some(0xacu16),
        106 => Some(0xaeu16),
        108 => Some(0xafu16),
        _ => None,
    }
}

/// Translates a Linux input key code to the key Doom expects.
pub fn translate_input_key(code: u16) -> (r: Option<u16>)
    ensures
        r == key_code(code),
{
    Some(match code {
        1 => 27,
        2 => 49,
        3 => 50,
        4 => 51,
        5 => 52,
        6 => 53,
        7 => 54,
        8 => 55,
        9 => 56,
        10 => 57,
        11 => 48,
        14 => 0x7f,
        15 => 9,
        16 => 113,
        17 => 119,
        18 => 101,
        19 => 114,
        20 => 116,
        21 => 121,
        22 => 117,
        23 => 105,
        24 => 111,
        25 => 112,
        28 => 13,
        29 => 0x80 + 0x1d,
        30 => 97,
        31 => 115,
        32 => 100,
        33 => 102,
        34 => 103,
        35 => 104,
        36 => 106,
        37 => 107,
        38 => 108,
        42 | 54 => 0x80 + 0x36,
        44 => 122,
        45 => 120,
        46 => 99,
        47 => 118,
        48 => 98,
        49 => 110,
        50 => 109,
        56 | 100 => 0x80 + 0x38,
        57 => 0xa2,
        59 => 0x80 + 0x3b,
        60 => 0x80 + 0x3c,
        61 => 0x80 + 0x3d,
        62 => 0x80 + 0x3e,
        63 => 0x80 + 0x3f,
        64 => 0x80 + 0x40,
        65 => 0x80 + 0x41,
        66 => 0x80 + 0x42,
        67 => 0x80 + 0x43,
        68 => 0x80 + 0x44,
        87 => 0x80 + 0x57,
        88 => 0x80 + 0x58,
        103 => 0xad,
        105 => 0xac,
        106 => 0xae,
        108 => 0xaf,
        _ => {
            return None;
        },
    })
}

/// The key event Doom sees for a raw input event: only key events with a known key,
/// pressed whenever `value` is not zero.
pub open spec fn key_event(event_type: u16, code: u16, value: u32) -> Option<InputKeyEvent> {
    if event_type != EV_KEY {
        None
    } else {
        match key_code(code) {
            None => None,
            Some(key) => Some(InputKeyEvent { key, pressed: if value == 0 { 0u16 } else { 1u16 } }),
        }
    }
}

/// Translates a raw VirtIO input event; `None` for events Doom does not take.
pub fn translate_event(event_type: u16, code: u16, value: u32) -> (r: Option<InputKeyEvent>)
    ensures
        r == key_event(event_type, code, value),
{
    if event_type != EV_KEY {
        return None;
    }
    match translate_input_key(code) {
        None => None,
        Some(key) => Some(InputKeyEvent { key, pressed: if value == 0 { 0 } else { 1 } }),
    }
}

/// The four arrow keys.
pub enum Arrow {
    Up,
    Left,
    Right,
    Down,
}

/// The Linux input event code of an arrow key: `KEY_UP`, `KEY_LEFT`, `KEY_RIGHT`,
/// `KEY_DOWN`.
pub open spec fn linux_arrow(a: Arrow) -> u16 {
    match a {
        Arrow::Up => 103,
        Arrow::Left => 105,
        Arrow::Right => 106,
        Arrow::Down => 108,
    }
}

/// Doom's key code of an arrow key: `KEY_UPARROW`, `KEY_LEFTARROW`, `KEY_RIGHTARROW`,
/// `KEY_DOWNARROW`.
pub open spec fn doom_arrow(a: Arrow) -> u16 {
    match a {
        Arrow::Up => 0xad,
        Arrow::Left => 0xac,
        Arrow::Right => 0xae,
        Arrow::Down => 0xaf,
    }
}

/// Each arrow key reaches Doom as the arrow of the same direction.
pub proof fn law_arrows_keep_direction(a: Arrow)
    ensures
        key_code(linux_arrow(a)) == Some(doom_arrow(a)),
{
}

/// The rows of a keyboard as Linux numbers its keys: the event code of the first key
/// of each row, and the characters of the row from left to right.
pub open spec fn keyboard_rows() -> Seq<(u16, Seq<char>)> {
    seq![
        (2u16, seq!['1', '2', '3', '4', '5', '6', '7', '8', '9', '0']),
        (16u16, seq!['q', 'w', 'e', 'r', 't', 'y', 'u', 'i', 'o', 'p']),
        (30u16, seq!['a', 's', 'd', 'f', 'g', 'h', 'j', 'k', 'l']),
        (44u16, seq!['z', 'x', 'c', 'v', 'b', 'n', 'm']),
    ]
}

/// Each digit and letter key reaches Doom as the ASCII code of the character it
/// carries, letters in lower case.
pub proof fn law_keys_follow_the_keyboard(row: int, i: int)
    requires
        0 <= row < keyboard_rows().len(),
        0 <= i < keyboard_rows()[row].1.len(),
    ensures
        key_code((keyboard_rows()[row].0 + i) as u16) == Some(keyboard_rows()[row].1[i] as u16),
{
}

/// The control keys: Escape, Backspace, Tab, Enter and the space bar.
pub enum ControlKey {
    Escape,
    Backspace,
    Tab,
    Enter,
    Space,
}

/// The Linux input event code of a control key: `KEY_ESC`, `KEY_BACKSPACE`, `KEY_TAB`,
/// `KEY_ENTER`, `KEY_SPACE`.
pub open spec fn linux_control(k: ControlKey) -> u16 {
    match k {
        ControlKey::Escape => 1,
        ControlKey::Backspace => 14,
        ControlKey::Tab => 15,
        ControlKey::Enter => 28,
        ControlKey::Space => 57,
    }
}

/// Doom's key code of a control key: `KEY_ESCAPE`, `KEY_BACKSPACE`, `KEY_TAB`,
/// `KEY_ENTER`, and `KEY_USE` for the space bar.
pub open spec fn doom_control(k: ControlKey) -> u16 {
    match k {
        ControlKey::Escape => 27,
        ControlKey::Backspace => 0x7f,
        ControlKey::Tab => 9,
        ControlKey::Enter => 13,
        ControlKey::Space => 0xa2,
    }
}

/// Each control key reaches Doom as Doom's key of the same name; the space bar opens
/// doors, as Doom's use key.
pub proof fn law_control_keys(k: ControlKey)
    ensures
        key_code(linux_control(k)) == Some(doom_control(k)),
{
}

/// For the modifier and function keys Doom's code is the PC scan code with the high
/// bit set, and Linux numbers these keys by their scan code; the left and right shift
/// and alt keys both reach Doom as its right-hand one.
pub proof fn law_scan_code_keys(code: u16)
    requires
        code == 29 || code == 54 || code == 56 || 59 <= code <= 68 || code == 87 || code == 88,
    ensures
        key_code(code) == Some((0x80 + code) as u16),
        key_code(42) == key_code(54),
        key_code(100) == key_code(56),
{
}

/// Only the keys named above are translated: every other event code gives nothing.
pub proof fn law_other_keys_give_nothing(code: u16)
    ensures
        key_code(code) is Some <==> (
            1 <= code <= 11 || 14 <= code <= 25 || 28 <= code <= 38 || code == 42 || 44 <= code <= 50
            || code == 54 || code == 56 || code == 57 || 59 <= code <= 68 || code == 87 || code == 88
            || code == 100 || code == 103 || code == 105 || code == 106 || code == 108
        ),
{
}

/// Every translated key fits in a byte, as Doom's `DG_GetKey` hands it on.
pub proof fn law_keys_fit_in_a_byte(code: u16)
    ensures
        key_code(code) matches Some(k) ==> k < 256,
{
}

/// Letter keys become lowercase ASCII letters.
pub proof fn law_letters_are_lowercase(code: u16)
    requires
        16 <= code <= 25 || 30 <= code <= 38 || 44 <= code <= 50,
    ensures
        key_code(code) matches Some(k) && 'a' as u16 <= k <= 'z' as u16,
{
}

/// `lseek` from the start of the file.
pub const SEEK_SET: usize = 0;
/// `lseek` from the current offset.
pub const SEEK_CUR: usize = 1;
/// `lseek` from the end of the file.
pub const SEEK_END: usize = 2;

/// The offset `lseek` moves to, or -1 for an unknown `whence` or a negative result.
pub open spec fn seek_spec(whence: usize, offset: isize, current: usize, size: usize) -> int {
    let target = if whence == SEEK_SET {
        offset as int
    } else if whence == SEEK_CUR {
        current + offset
    } else if whence == SEEK_END {
        size + offset
    } else {
        -1
    };
    if target < 0 { -1 } else { target }
}

/// Computes the new file offset for `lseek`; `current` is the file's offset and `size`
/// its length.
pub fn lseek_offset(whence: usize, offset: isize, current: usize, size: usize) -> (r: isize)
    requires
        current <= isize::MAX,
        size <= isize::MAX,
        whence == SEEK_CUR ==> isize::MIN <= current + offset <= isize::MAX,
        whence == SEEK_END ==> isize::MIN <= size + offset <= isize::MAX,
    ensures
        r == seek_spec(whence, offset, current, size),
{
    let new_offset = if whence == SEEK_SET {
        offset
    } else if whence == SEEK_CUR {
        current as isize + offset
    } else if whence == SEEK_END {
        size as isize + offset
    } else {
        return -1;
    };
    if new_offset < 0 {
        return -1;
    }
    new_offset
}


pub open spec fn min_nat(a: int, b: int) -> int {
    if a <= b { a } else { b }
}

/// How a user frame of `width` by `height` pixels is copied, centered and clipped,
/// onto the screen.
pub struct FlushPlan {
    /// Rows copied.
    pub rows: usize,
    /// Bytes copied per row.
    pub row_bytes: usize,
    /// First screen column written.
    pub dst_x: usize,
    /// First screen row written.
    pub dst_y: usize,
    /// Bytes per row in the user buffer.
    pub src_stride: usize,
    /// Bytes per row on the screen.
    pub dst_stride: usize,
    /// Length of the user buffer.
    pub len: usize,
    /// Width of the user frame in pixels.
    pub width: usize,
    /// Height of the user frame in pixels.
    pub height: usize,
    /// Width of the screen in pixels.
    pub screen_width: usize,
    /// Height of the screen in pixels.
    pub screen_height: usize,
}

/// `plan` copies the centered, clipped frame, and every row it touches lies inside
/// both buffers.
pub open spec fn plan_spec(plan: FlushPlan, len: int, width: int, height: int, stride: int,
    screen_width: int, screen_height: int, screen_stride: int) -> bool {
    let w = min_nat(width, screen_width);
    let h = min_nat(height, screen_height);
    &&& plan.rows == h
    &&& plan.row_bytes == w * 4
    &&& plan.dst_x == (screen_width - w) / 2
    &&& plan.dst_y == (screen_height - h) / 2
    &&& plan.src_stride == stride
    &&& plan.dst_stride == screen_stride
    &&& plan.len == len
    &&& plan.width == width
    &&& plan.height == height
    &&& plan.screen_width == screen_width
    &&& plan.screen_height == screen_height
}

/// Whether `framebuffer_flush` accepts a user frame: the byte count `stride * height`
/// fits, the frame is not empty, rows hold `width` pixels, and the buffer is long enough.
pub open spec fn flush_accepted(len: int, width: int, height: int, stride: int) -> bool {
    &&& stride * height <= usize::MAX
    &&& width != 0
    &&& height != 0
    &&& stride >= width * 4
    &&& len >= stride * height
}

/// The screen is `screen_width` by `screen_height` pixels of four bytes, rows
/// `screen_stride` bytes apart, and its buffer size fits in a `usize`.
pub open spec fn screen_ok(screen_width: int, screen_height: int, screen_stride: int) -> bool {
    &&& screen_stride >= screen_width * 4
    &&& screen_height * screen_stride <= usize::MAX
}

/// Checks a `framebuffer_flush` request for a `len`-byte buffer and plans the copy.
pub fn plan_flush(len: usize, width: usize, height: usize, stride: usize,
    screen_width: usize, screen_height: usize, screen_stride: usize) -> (r: Option<FlushPlan>)
    requires
        screen_ok(screen_width as int, screen_height as int, screen_stride as int),
        stride * height <= usize::MAX && width != 0 && height != 0 ==> width * 4 <= usize::MAX,
    ensures
        r is Some <==> flush_accepted(len as int, width as int, height as int, stride as int),
        r matches Some(p) ==> plan_spec(p, len as int, width as int, height as int, stride as int,
            screen_width as int, screen_height as int, screen_stride as int),
{
    let required_len = match stride.checked_mul(height) {
        Some(n) => n,
        None => {
            return None;
        },
    };
    if width == 0 || height == 0 || stride < width * 4 || len < required_len {
        return None;
    }
    let dst_width = if width < screen_width { width } else { screen_width };
    let dst_height = if height < screen_height { height } else { screen_height };
    proof {
        assert(dst_width * 4 <= screen_width * 4) by (nonlinear_arith)
            requires
                dst_width <= screen_width,
        ;
    }
    let dst_x = (screen_width - dst_width) / 2;
    let dst_y = (screen_height - dst_height) / 2;
    Some(FlushPlan {
        rows: dst_height,
        row_bytes: dst_width * 4,
        dst_x,
        dst_y,
        src_stride: stride,
        dst_stride: screen_stride,
        len,
        width,
        height,
        screen_width,
        screen_height,
    })
}

impl FlushPlan {
    /// The plan was made by `plan_flush` for an accepted request on a sane screen.
    pub open spec fn valid(self) -> bool {
        &&& flush_accepted(self.len as int, self.width as int, self.height as int, self.src_stride as int)
        &&& screen_ok(self.screen_width as int, self.screen_height as int, self.dst_stride as int)
        &&& plan_spec(self, self.len as int, self.width as int, self.height as int, self.src_stride as int,
            self.screen_width as int, self.screen_height as int, self.dst_stride as int)
    }

    /// Where row `row` starts in the user buffer and on the screen; the `row_bytes`
    /// bytes from each lie inside that buffer.
    pub fn row_offsets(&self, row: usize) -> (r: (usize, usize))
        requires
            self.valid(),
            row < self.rows,
        ensures
            r.0 == row * self.src_stride,
            r.1 == (self.dst_y + row) * self.dst_stride + self.dst_x * 4,
            r.0 + self.row_bytes <= self.len,
            r.1 + self.row_bytes <= self.screen_height * self.dst_stride,
    {
        let ghost w = min_nat(self.width as int, self.screen_width as int);
        let ghost h = min_nat(self.height as int, self.screen_height as int);
        proof {
            assert(row * self.src_stride + self.row_bytes <= self.len) by (nonlinear_arith)
                requires
                    row < h,
                    h <= self.height,
                    self.row_bytes == w * 4,
                    w <= self.width,
                    self.src_stride >= self.width * 4,
                    self.len >= self.src_stride * self.height,
            ;
            assert((self.dst_y + row) * self.dst_stride + self.dst_x * 4 + self.row_bytes
                <= self.screen_height * self.dst_stride) by (nonlinear_arith)
                requires
                    row < h,
                    0 <= h <= self.screen_height,
                    self.dst_y == (self.screen_height - h) / 2,
                    self.dst_x == (self.screen_width - w) / 2,
                    0 <= w <= self.screen_width,
                    self.row_bytes == w * 4,
                    self.dst_stride >= self.screen_width * 4,
            ;
            assert(0 <= (self.dst_y + row) * self.dst_stride) by (nonlinear_arith);
            assert(0 <= self.dst_x * 4);
        }
        (row * self.src_stride, (self.dst_y + row) * self.dst_stride + self.dst_x * 4)
    }
}

/// A point in time as seconds and nanoseconds.
#[derive(Clone, Copy, Debug, PartialEq, Eq, Structural)]
pub struct TimeSpec {
    pub tv_sec: usize,
    pub tv_nsec: usize,
}

/// Converts ticks of the 12.5 MHz machine timer to a monotonic clock reading.
pub fn timespec_from_ticks(ticks: usize) -> (r: TimeSpec)
    requires
        ticks * 10000 <= usize::MAX,
    ensures
        r.tv_sec == (ticks * 10000 / 125) / 1_000_000_000,
        r.tv_nsec == (ticks * 10000 / 125) % 1_000_000_000,
        r.tv_sec * 1_000_000_000 + r.tv_nsec == ticks * 80,
        r.tv_nsec < 1_000_000_000,
{
    let time = ticks * 10000 / 125;
    assert(time == ticks * 80);
    TimeSpec { tv_sec: time / 1_000_000_000, tv_nsec: time % 1_000_000_000 }
}

/// A point in time as seconds and microseconds, as C's `gettimeofday` reports it.
#[derive(Clone, Copy, Debug, PartialEq, Eq, Structural)]
pub struct Timeval {
    pub tv_sec: i64,
    pub tv_usec: i64,
}

/// A clock reading as `gettimeofday` reports it: the same seconds, the nanoseconds
/// cut to whole microseconds.
pub fn timeval_of(ts: TimeSpec) -> (r: Timeval)
    ensures
        r.tv_sec == ts.tv_sec as i64,
        r.tv_usec == (ts.tv_nsec / 1000) as i64,
{
    Timeval { tv_sec: ts.tv_sec as i64, tv_usec: (ts.tv_nsec / 1000) as i64 }
}

/// Milliseconds of a clock reading, cut to 32 bits as Doom's tick counter is.
pub fn ticks_ms(ts: TimeSpec) -> (r: u32)
    requires
        ts.tv_sec * 1000 + ts.tv_nsec / 1_000_000 <= usize::MAX,
    ensures
        r == (ts.tv_sec * 1000 + ts.tv_nsec / 1_000_000) as u32,
{
    (ts.tv_sec * 1000 + ts.tv_nsec / 1_000_000) as u32
}

/// Size of a page.
pub const PAGE_SIZE: usize = 4096;

/// Bytes from `addr` to the end of its page, but at most `remaining`.
pub open spec fn chunk_at(addr: int, remaining: int) -> int {
    min_nat(PAGE_SIZE - addr % (PAGE_SIZE as int), remaining)
}

/// The pieces `(address, length)` of the `len` bytes at `ptr`, split at page boundaries.
pub open spec fn segments_spec(ptr: int, len: int) -> Seq<(int, int)>
    decreases len,
{
    if len <= 0 {
        Seq::empty()
    } else {
        let c = chunk_at(ptr, len);
        if c <= 0 {
            Seq::empty()
        } else {
            seq![(ptr, c)].add(segments_spec(ptr + c, len - c))
        }
    }
}

/// Splits the `len` user bytes at `user_ptr` at page boundaries, so that each piece can
/// be translated through one page-table entry.
pub fn user_segments(user_ptr: usize, len: usize) -> (r: Vec<(usize, usize)>)
    requires
        user_ptr + len <= usize::MAX,
    ensures
        r@.map_values(|s: (usize, usize)| (s.0 as int, s.1 as int)) == segments_spec(user_ptr as int, len as int),
{
    let mut segments: Vec<(usize, usize)> = Vec::new();
    let mut offset: usize = 0;
    let ghost total = segments_spec(user_ptr as int, len as int);
    while offset < len
        invariant
            user_ptr + len <= usize::MAX,
            offset <= len,
            total == segments_spec(user_ptr as int, len as int),
            total == segments@.map_values(|s: (usize, usize)| (s.0 as int, s.1 as int))
                .add(segments_spec(user_ptr + offset, len - offset)),
        decreases len - offset,
    {
        let addr = user_ptr + offset;
        let room = PAGE_SIZE - addr % PAGE_SIZE;
        let left = len - offset;
        let chunk = if room < left { room } else { left };
        let ghost before = segments@.map_values(|s: (usize, usize)| (s.0 as int, s.1 as int));
        segments.push((addr, chunk));
        proof {
            let after = segments@.map_values(|s: (usize, usize)| (s.0 as int, s.1 as int));
            assert(after =~= before.push((addr as int, chunk as int)));
            assert(segments_spec(addr as int, left as int)
                == seq![(addr as int, chunk as int)].add(segments_spec(addr + chunk, left - chunk)));
            assert(total =~= after.add(segments_spec(user_ptr + offset + chunk, len - (offset + chunk))));
        }
        offset = offset + chunk;
    }
    assert(segments_spec(user_ptr + offset, len - offset) =~= Seq::<(int, int)>::empty());
    assert(segments@.map_values(|s: (usize, usize)| (s.0 as int, s.1 as int)).add(Seq::<(int, int)>::empty())
        =~= segments@.map_values(|s: (usize, usize)| (s.0 as int, s.1 as int)));
    segments
}

/// The pieces follow one another without gaps, cover exactly the `len` bytes, are not
/// empty, and none crosses a page boundary.
pub proof fn law_segments_tile_pages(ptr: int, len: int)
    requires
        ptr >= 0,
    ensures
        ({
            let s = segments_spec(ptr, len);
            &&& forall|k: int| 0 <= k < s.len() ==> 0 < (#[trigger] s[k]).1
                && s[k].0 / (PAGE_SIZE as int) == (s[k].0 + s[k].1 - 1) / (PAGE_SIZE as int)
            &&& s.len() > 0 ==> s[0].0 == ptr
            &&& forall|k: int| 0 <= k < s.len() - 1 ==> #[trigger] s[k + 1].0 == s[k].0 + s[k].1
            &&& len > 0 ==> s.len() > 0 && s.last().0 + s.last().1 == ptr + len
        }),
    decreases len,
{
    if len > 0 {
        let c = chunk_at(ptr, len);
        let page = PAGE_SIZE as int;
        assert(0 <= ptr % page < page);
        assert(c > 0);
        law_segments_tile_pages(ptr + c, len - c);
        let rest = segments_spec(ptr + c, len - c);
        let s = segments_spec(ptr, len);
        assert(s == seq![(ptr, c)].add(rest));
        assert(ptr / page == (ptr + c - 1) / page) by {
            vstd::arithmetic::div_mod::lemma_fundamental_div_mod(ptr, page);
            let q = ptr / page;
            let m = ptr % page;
            assert(ptr + c - 1 == q * page + (m + c - 1)) by (nonlinear_arith)
                requires
                    ptr == page * q + m,
            ;
            assert(0 <= m + c - 1 < page);
            vstd::arithmetic::div_mod::lemma_fundamental_div_mod_converse(ptr + c - 1, page, q, m + c - 1);
        }
        assert forall|k: int| 0 <= k < s.len() implies 0 < (#[trigger] s[k]).1
            && s[k].0 / page == (s[k].0 + s[k].1 - 1) / page by {
            if k > 0 {
                assert(s[k] == rest[k - 1]);
            }
        }
        assert forall|k: int| 0 <= k < s.len() - 1 implies #[trigger] s[k + 1].0 == s[k].0 + s[k].1 by {
            if k > 0 {
                assert(s[k] == rest[k - 1]);
                assert(s[k + 1] == rest[k]);
                assert(rest[(k - 1) + 1].0 == rest[k - 1].0 + rest[k - 1].1);
            } else {
                assert(rest.len() > 0);
                assert(s[1] == rest[0]);
                assert(rest[0].0 == ptr + c);
            }
        }
        if rest.len() > 0 {
            assert(s.last() == rest.last());
        } else {
            assert(len - c <= 0);
        }
    }
}

/// Register `satp` value that selects Sv39 paging with root page `ppn`.
pub fn make_satp(ppn: u64) -> (r: u64)
    requires
        ppn < 0x1000_0000_0000_0000,
    ensures
        r == 0x8000_0000_0000_0000 + ppn,
{
    let r = (8u64 << 60u64) | ppn;
    assert(r == 0x8000_0000_0000_0000 + ppn) by (bit_vector)
        requires
            ppn < 0x1000_0000_0000_0000,
            r == (8u64 << 60u64) | ppn,
    ;
    r
}

/// The exit code of a tangram user program: its piece number, or 127 if drawing failed.
pub fn piece_exit_code(draw_result: isize, piece_id: usize) -> (r: i32)
    ensures
        r == (if draw_result < 0 { 127i32 } else { piece_id as i32 }),
{
    if draw_result < 0 {
        127
    } else {
        piece_id as i32
    }
}

/// A tangram user program: asks the kernel to draw piece `piece_id` through
/// `draw_piece` and answers the code it then exits with.
pub fn run_piece(piece_id: usize, draw_piece: impl FnOnce(usize) -> isize) -> (r: i32)
    requires
        call_requires(draw_piece, (piece_id,)),
    ensures
        exists|ret: isize| #[trigger] call_ensures(draw_piece, (piece_id,), ret)
            && r == (if ret < 0 { 127i32 } else { piece_id as i32 }),
{
    let ret = draw_piece(piece_id);
    piece_exit_code(ret, piece_id)
}

/// The first empty slot of a resource list, which a new resource reuses.
pub fn first_free_slot<T>(list: &Vec<Option<T>>) -> (r: Option<usize>)
    ensures
        match r {
            Some(i) => i < list@.len() && list@[i as int] is None
                && forall|j: int| 0 <= j < i ==> #[trigger] list@[j] is Some,
            None => forall|j: int| 0 <= j < list@.len() ==> #[trigger] list@[j] is Some,
        },
{
    let mut i: usize = 0;
    while i < list.len()
        invariant
            i <= list@.len(),
            forall|j: int| 0 <= j < i ==> #[trigger] list@[j] is Some,
        decreases list@.len() - i,
    {
        if list[i].is_none() {
            return Some(i);
        }
        i = i + 1;
    }
    None
}

/// What `framebuffer_get_info` reports for a screen of the given geometry.
pub fn framebuffer_info(width: usize, height: usize, stride: usize) -> (r: FramebufferInfo)
    ensures
        r == (FramebufferInfo {
            width: width as u32,
            height: height as u32,
            stride: stride as u32,
            format: FRAMEBUFFER_FORMAT_BGRX8888,
        }),
{
    FramebufferInfo {
        width: width as u32,
        height: height as u32,
        stride: stride as u32,
        format: FRAMEBUFFER_FORMAT_BGRX8888,
    }
}

} // verus!
