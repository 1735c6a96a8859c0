//! Loading an ELF executable into a user address space: the header check, and for
//! every loadable segment the pages to map, the file bytes to copy into them and the
//! page permissions.
use vstd::prelude::*;

verus! {

/// ELF file type of an executable.
pub const ET_EXEC: u16 = 2;
/// Segment permission bits of a program header.
pub const PF_X: u32 = 1;
pub const PF_W: u32 = 2;
pub const PF_R: u32 = 4;
/// Bytes in a page, and the mask of the offset inside one.
pub const PAGE_SIZE: usize = 4096;
pub const PAGE_MASK: usize = 4095;
/// The user stack: the pages just below page `USER_STACK_END_PAGE`.
pub const USER_STACK_END_PAGE: usize = 0x400_0000;
pub const USER_STACK_PAGES: usize = 2;
/// Initial user stack pointer.
pub const USER_STACK_TOP: u64 = 0x40_0000_0000;

/// ELF machine number of RISC-V.
pub const EM_RISCV: u16 = 0xf3;
/// Program-header type of a segment to load.
pub const PT_LOAD: u32 = 1;

/// The entry point of an executable for this machine: a 64-bit image of type
/// executable for RISC-V; `None` for anything else.
pub fn elf_entry(is_64: bool, kind: u16, machine: u16, entry: u64) -> (r: Option<usize>)
    ensures
        r == (if is_64 && kind == ET_EXEC && machine == EM_RISCV { Some(entry as usize) } else { None::<usize> }),
{
    if is_64 && kind == ET_EXEC && machine == EM_RISCV {
        Some(entry as usize)
    } else {
        None
    }
}

/// The fields of a program header that loading reads.
#[derive(Clone, Copy, Debug, PartialEq, Eq, Structural)]
pub struct ProgramHeader {
    /// Whether the segment is of type `LOAD`.
    pub loadable: bool,
    /// Where its bytes start in the file.
    pub offset: usize,
    /// How many bytes the file holds for it.
    pub file_size: usize,
    /// Where it starts in memory.
    pub vaddr: usize,
    /// How many bytes it spans in memory.
    pub mem_size: usize,
    /// Its `PF_*` permission bits.
    pub flags: u32,
}

/// How to map one loadable segment.
pub struct SegmentPlan {
    /// First page number of the mapping.
    pub first_page: usize,
    /// Page number just past the mapping.
    pub end_page: usize,
    /// Where the bytes to copy start in the file.
    pub data_start: usize,
    /// How many bytes to copy.
    pub data_len: usize,
    /// Where in the first page the copy starts.
    pub page_offset: usize,
    /// Permissions as the page-table flag text: `U`, then `X`, `W`, `R` or `_` for
    /// each, then `V`.
    pub flags: [u8; 5],
}

/// A loadable segment that the loader can map from a file of `input_len` bytes: its
/// memory end rounded up to a page fits in a machine word, its file offset and its
/// address agree inside a page, and its file bytes lie in the file.
pub open spec fn segment_ok(ph: ProgramHeader, input_len: usize) -> bool {
    &&& ph.vaddr + ph.mem_size + PAGE_MASK <= usize::MAX
    &&& ph.offset % PAGE_SIZE == ph.vaddr % PAGE_SIZE
    &&& ph.offset + ph.file_size <= input_len
}

/// `letter` if `flags` has `bit`, else `_`.
pub open spec fn flag_byte(flags: u32, bit: u32, letter: u8) -> u8 {
    if flags & bit == bit { letter } else { 95u8 }
}

/// Page-table flag text for segment permission bits `flags`.
pub open spec fn segment_flags(flags: u32) -> Seq<u8> {
    seq![85u8, flag_byte(flags, PF_X, 88u8), flag_byte(flags, PF_W, 87u8), flag_byte(flags, PF_R, 82u8), 86u8]
}

/// The plan for a segment: the pages from the one holding its start to the one
/// holding its last byte, its file bytes, and its permissions.
pub open spec fn plan_matches(plan: SegmentPlan, ph: ProgramHeader) -> bool {
    &&& plan.first_page == ph.vaddr / PAGE_SIZE
    &&& plan.end_page == (ph.vaddr + ph.mem_size + PAGE_MASK) / (PAGE_SIZE as int)
    &&& plan.data_start == ph.offset
    &&& plan.data_len == ph.file_size
    &&& plan.page_offset == ph.vaddr % PAGE_SIZE
    &&& plan.flags@ == segment_flags(ph.flags)
}

/// The loadable headers among `hs`, in order.
pub open spec fn loadable_headers(hs: Seq<ProgramHeader>) -> Seq<ProgramHeader> {
    hs.filter(|ph: ProgramHeader| ph.loadable)
}

/// How to map segment `ph`; `None` when it is not loadable.
pub fn plan_segment(ph: &ProgramHeader, input_len: usize) -> (r: Option<SegmentPlan>)
    requires
        ph.loadable ==> segment_ok(*ph, input_len),
    ensures
        r is None <==> !ph.loadable,
        r matches Some(plan) ==> plan_matches(plan, *ph),
{
    if !ph.loadable {
        return None;
    }
    let end = ph.vaddr + ph.mem_size;
    let x: u8 = if ph.flags & PF_X == PF_X { 88 } else { 95 };
    let w: u8 = if ph.flags & PF_W == PF_W { 87 } else { 95 };
    let rd: u8 = if ph.flags & PF_R == PF_R { 82 } else { 95 };
    let flags: [u8; 5] = [85, x, w, rd, 86];
    let plan = SegmentPlan {
        first_page: ph.vaddr / PAGE_SIZE,
        end_page: (end + PAGE_MASK) / PAGE_SIZE,
        data_start: ph.offset,
        data_len: ph.file_size,
        page_offset: ph.vaddr % PAGE_SIZE,
        flags,
    };
    assert(plan.flags@ =~= segment_flags(ph.flags));
    Some(plan)
}

/// How to map every loadable segment of `headers`, in order.
pub fn plan_segments(headers: &Vec<ProgramHeader>, input_len: usize) -> (r: Vec<SegmentPlan>)
    requires
        forall|i: int| 0 <= i < headers@.len() && (#[trigger] headers@[i]).loadable ==> segment_ok(headers@[i], input_len),
    ensures
        r@.len() == loadable_headers(headers@).len(),
        forall|i: int| 0 <= i < r@.len() ==> plan_matches(#[trigger] r@[i], loadable_headers(headers@)[i]),
{
    let mut r: Vec<SegmentPlan> = Vec::new();
    let mut i: usize = 0;
    while i < headers.len()
        invariant
            i <= headers@.len(),
            forall|j: int| 0 <= j < headers@.len() && (#[trigger] headers@[j]).loadable ==> segment_ok(headers@[j], input_len),
            r@.len() == loadable_headers(headers@.take(i as int)).len(),
            forall|j: int| 0 <= j < r@.len() ==> plan_matches(#[trigger] r@[j], loadable_headers(headers@.take(i as int))[j]),
        decreases headers@.len() - i,
    {
        let ghost before = headers@.take(i as int);
        let ghost after = headers@.take(i + 1);
        assert(before =~= after.drop_last());
        proof {
            reveal(Seq::filter);
        }
        assert(after.drop_last() == before);
        match plan_segment(&headers[i], input_len) {
            Some(plan) => {
                r.push(plan);
            },
            None => {},
        }
        i = i + 1;
    }
    assert(headers@.take(headers@.len() as int) =~= headers@);
    r
}

/// The pages of a planned segment hold all of it and nothing before its page: the
/// copy lands at its address, and its last byte lies in the last page.
pub proof fn law_segment_pages_cover(ph: ProgramHeader, plan: SegmentPlan, input_len: usize)
    requires
        segment_ok(ph, input_len),
        plan_matches(plan, ph),
    ensures
        plan.first_page * PAGE_SIZE + plan.page_offset == ph.vaddr,
        ph.vaddr + ph.mem_size <= plan.end_page * PAGE_SIZE,
        ph.mem_size > 0 ==> (plan.end_page - 1) * PAGE_SIZE < ph.vaddr + ph.mem_size,
        plan.first_page <= plan.end_page,
        plan.data_start + plan.data_len <= input_len,
{
    let v = ph.vaddr as int;
    let e = (ph.vaddr + ph.mem_size) as int;
    let ps = PAGE_SIZE as int;
    assert(v == ps * (v / ps) + v % ps) by (nonlinear_arith)
        requires ps == 4096;
    let q = (e + 4095) / ps;
    assert(e + 4095 == ps * q + (e + 4095) % ps) by (nonlinear_arith)
        requires ps == 4096, q == (e + 4095) / ps;
    assert(0 <= (e + 4095) % ps < ps) by (nonlinear_arith)
        requires ps == 4096;
    assert(0 <= v % ps < ps) by (nonlinear_arith)
        requires ps == 4096;
    assert(v / ps <= q) by (nonlinear_arith)
        requires ps == 4096, v <= e, q == (e + 4095) / ps;
}


pub open spec fn pow256(n: nat) -> nat
    decreases n,
{
    if n == 0 { 1 } else { 256 * pow256((n - 1) as nat) }
}

/// The little-endian number in the `n` bytes of `s` from `off`.
pub open spec fn le_value(s: Seq<u8>, off: int, n: nat) -> nat
    decreases n,
{
    if n == 0 { 0 } else { s[off] as nat + 256 * le_value(s, off + 1, (n - 1) as nat) }
}

proof fn lemma_le_bound(s: Seq<u8>, off: int, n: nat)
    ensures
        le_value(s, off, n) < pow256(n),
    decreases n,
{
    if n > 0 {
        lemma_le_bound(s, off + 1, (n - 1) as nat);
        let a = s[off] as nat;
        let b = le_value(s, off + 1, (n - 1) as nat);
        let p = pow256((n - 1) as nat);
        assert(a + 256 * b < 256 * p) by (nonlinear_arith)
            requires a < 256, b < p;
    }
}

fn read_le(image: &[u8], off: usize, n: usize) -> (r: u64)
    requires
        off + n <= image@.len(),
        n <= 8,
    ensures
        r == le_value(image@, off as int, n as nat),
{
    proof {
        reveal_with_fuel(pow256, 9);
    }
    let total = image.len();
    let mut r: u64 = 0;
    let mut k: usize = n;
    while k > 0
        invariant
            total == image@.len(),
            k <= n <= 8,
            off + n <= image@.len(),
            r == le_value(image@, off + k, (n - k) as nat),
            pow256(8) == 0x1_0000_0000_0000_0000,
        decreases k,
    {
        k = k - 1;
        proof {
            lemma_le_bound(image@, off + k + 1, (n - k - 1) as nat);
            let j = (n - k - 1) as nat;
            assert(pow256(j) <= pow256(7)) by {
                reveal_with_fuel(pow256, 9);
            }
            assert(r * 256 + 255 < 0x1_0000_0000_0000_0000) by (nonlinear_arith)
                requires r < pow256(j), pow256(j) <= pow256(7), pow256(7) == 0x100_0000_0000_0000;
        }
        r = r * 256 + image[off + k] as u64;
    }
    r
}

/// The segment can be mapped from an image of `len` bytes (see `segment_ok`).
fn segment_fits(ph: &ProgramHeader, len: usize) -> (r: bool)
    ensures
        r == segment_ok(*ph, len),
{
    match ph.vaddr.checked_add(ph.mem_size) {
        None => false,
        Some(end) => match end.checked_add(PAGE_MASK) {
            None => false,
            Some(_) => ph.offset % PAGE_SIZE == ph.vaddr % PAGE_SIZE && match ph.offset.checked_add(ph.file_size) {
                None => false,
                Some(data_end) => data_end <= len,
            },
        },
    }
}

/// Every loadable header among `hs` can be mapped from an image of `len` bytes.
pub open spec fn loadable_ok(hs: Seq<ProgramHeader>, len: usize) -> bool {
    forall|i: int| 0 <= i < hs.len() && (#[trigger] hs[i]).loadable ==> segment_ok(hs[i], len)
}

/// Whether `s` starts with the ELF magic number.
pub open spec fn has_magic(s: Seq<u8>) -> bool {
    s.len() >= 16 && s[0] == 0x7f && s[1] == 0x45 && s[2] == 0x4c && s[3] == 0x46
}

/// The header of an ELF image, read in little-endian order, the order of the machines
/// this kernel runs on: its class (1 for 32-bit, 2 for 64-bit), type, machine and entry
/// point; `None` without the magic number, for another class, or when the image is
/// shorter than the header of its class.
pub open spec fn elf_header(s: Seq<u8>) -> Option<(u8, u16, u16, u64)> {
    if !has_magic(s) {
        None
    } else if s[4] == 2 && s.len() >= 64 {
        Some((2u8, le_value(s, 16, 2) as u16, le_value(s, 18, 2) as u16, le_value(s, 24, 8) as u64))
    } else if s[4] == 1 && s.len() >= 52 {
        Some((1u8, le_value(s, 16, 2) as u16, le_value(s, 18, 2) as u16, le_value(s, 24, 4) as u64))
    } else {
        None
    }
}

/// Where the program-header table of a 64-bit image starts, how big its entries are,
/// and how many there are.
pub open spec fn ph_offset(s: Seq<u8>) -> nat {
    le_value(s, 32, 8)
}

pub open spec fn ph_entry_size(s: Seq<u8>) -> nat {
    le_value(s, 54, 2)
}

pub open spec fn ph_count(s: Seq<u8>) -> nat {
    le_value(s, 56, 2)
}

/// Whether a 64-bit image lists program headers: a table with entries, at a nonzero
/// offset, of nonzero size.
pub open spec fn has_table(s: Seq<u8>) -> bool {
    ph_count(s) > 0 && ph_offset(s) > 0 && ph_entry_size(s) > 0
}

/// The program-header table of a 64-bit image can be read: it lists nothing, or its
/// entries hold a whole header each and all lie inside the image.
pub open spec fn program_table_fits(s: Seq<u8>) -> bool {
    !has_table(s) || (ph_entry_size(s) >= 56 && ph_offset(s) + ph_count(s) * ph_entry_size(s) <= s.len())
}

/// The 64-bit program header at byte `start`.
pub open spec fn header_at(s: Seq<u8>, start: int) -> ProgramHeader {
    ProgramHeader {
        loadable: le_value(s, start, 4) == PT_LOAD,
        flags: le_value(s, start + 4, 4) as u32,
        offset: le_value(s, start + 8, 8) as usize,
        vaddr: le_value(s, start + 16, 8) as usize,
        file_size: le_value(s, start + 32, 8) as usize,
        mem_size: le_value(s, start + 40, 8) as usize,
    }
}

/// The program headers of a 64-bit image, in table order.
pub open spec fn image_headers(s: Seq<u8>) -> Seq<ProgramHeader> {
    if has_table(s) {
        Seq::new(ph_count(s), |i: int| header_at(s, ph_offset(s) + i * ph_entry_size(s)))
    } else {
        Seq::empty()
    }
}

/// Whether the loader takes `image`: a 64-bit RISC-V executable whose program-header
/// table can be read and whose loadable segments can all be mapped.
pub open spec fn loadable_image(image: Seq<u8>) -> bool {
    &&& elf_header(image) matches Some(h)
    &&& h.0 == 2 && h.1 == ET_EXEC && h.2 == EM_RISCV
    &&& program_table_fits(image)
    &&& loadable_ok(image_headers(image), image.len() as usize)
}

fn read_u16(image: &[u8], off: usize) -> (r: u16)
    requires
        off + 2 <= image@.len(),
    ensures
        r == le_value(image@, off as int, 2),
{
    let v = read_le(image, off, 2);
    proof {
        lemma_le_bound(image@, off as int, 2);
        reveal_with_fuel(pow256, 3);
    }
    v as u16
}

fn read_u32(image: &[u8], off: usize) -> (r: u32)
    requires
        off + 4 <= image@.len(),
    ensures
        r == le_value(image@, off as int, 4),
{
    let v = read_le(image, off, 4);
    proof {
        lemma_le_bound(image@, off as int, 4);
        reveal_with_fuel(pow256, 5);
    }
    v as u32
}

/// Reads the header of an ELF image.
fn read_header(image: &[u8]) -> (r: Option<(u8, u16, u16, u64)>)
    ensures
        r == elf_header(image@),
{
    let len = image.len();
    if len < 16 || image[0] != 0x7f || image[1] != 0x45 || image[2] != 0x4c || image[3] != 0x46 {
        return None;
    }
    if image[4] == 2 && len >= 64 {
        Some((2, read_u16(image, 16), read_u16(image, 18), read_le(image, 24, 8)))
    } else if image[4] == 1 && len >= 52 {
        Some((1, read_u16(image, 16), read_u16(image, 18), read_le(image, 24, 4)))
    } else {
        None
    }
}

/// Reads the program headers of a 64-bit image whose table fits.
fn read_program_headers(image: &[u8]) -> (r: Vec<ProgramHeader>)
    requires
        image@.len() >= 64,
        program_table_fits(image@),
    ensures
        r@ == image_headers(image@),
{
    let ghost s = image@;
    let off = read_le(image, 32, 8);
    let ent = read_u16(image, 54);
    let count = read_u16(image, 56);
    let mut r: Vec<ProgramHeader> = Vec::new();
    if count == 0 || off == 0 || ent == 0 {
        assert(r@ =~= image_headers(s));
        return r;
    }
    let len = image.len();
    let off = off as usize;
    let ent = ent as usize;
    let count = count as usize;
    let mut i: usize = 0;
    while i < count
        invariant
            s == image@,
            len == s.len(),
            i <= count,
            count == ph_count(s),
            off == ph_offset(s),
            ent == ph_entry_size(s),
            has_table(s),
            ent >= 56,
            off + count * ent <= len,
            r@ =~= Seq::new(i as nat, |k: int| header_at(s, off + k * ent)),
        decreases count - i,
    {
        proof {
            assert(off + i * ent + ent <= off + count * ent) by (nonlinear_arith)
                requires i < count, ent >= 0;
            assert(i * ent >= 0) by (nonlinear_arith)
                requires i >= 0, ent >= 0;
        }
        let start = off + i * ent;
        let kind = read_u32(image, start);
        let flags = read_u32(image, start + 4);
        let offset = read_le(image, start + 8, 8);
        let vaddr = read_le(image, start + 16, 8);
        let file_size = read_le(image, start + 32, 8);
        let mem_size = read_le(image, start + 40, 8);
        let ph = ProgramHeader {
            loadable: kind == PT_LOAD,
            flags,
            offset: offset as usize,
            vaddr: vaddr as usize,
            file_size: file_size as usize,
            mem_size: mem_size as usize,
        };
        assert(ph == header_at(s, off + i * ent));
        r.push(ph);
        i = i + 1;
    }
    r
}

/// Reads an executable for loading: its entry point and how to map each loadable
/// segment. `None` when it is no 64-bit RISC-V executable, when its program-header
/// table does not lie inside it, or when a loadable segment cannot be mapped (file
/// offset and address disagree inside a page, bytes past the image, or an end past the
/// address space).
pub fn load_plan(image: &[u8]) -> (r: Option<(usize, Vec<SegmentPlan>)>)
    ensures
        r is Some <==> loadable_image(image@),
        r matches Some((entry, plans)) ==> {
            &&& entry == elf_header(image@)->Some_0.3 as usize
            &&& plans@.len() == loadable_headers(image_headers(image@)).len()
            &&& forall|i: int| 0 <= i < plans@.len()
                ==> plan_matches(#[trigger] plans@[i], loadable_headers(image_headers(image@))[i])
        },
{
    let (class, kind, machine, entry_point) = match read_header(image) {
        None => {
            return None;
        },
        Some(h) => h,
    };
    let entry = match elf_entry(class == 2, kind, machine, entry_point) {
        None => {
            return None;
        },
        Some(e) => e,
    };
    let off = read_le(image, 32, 8);
    let ent = read_u16(image, 54);
    let count = read_u16(image, 56);
    proof {
        assert((count as int) * (ent as int) <= 0xffff * 0xffff) by (nonlinear_arith)
            requires count <= 0xffff, ent <= 0xffff;
    }
    let fits = count == 0 || off == 0 || ent == 0
        || (ent >= 56 && (off as u128) + (count as u128) * (ent as u128) <= image.len() as u128);
    if !fits {
        return None;
    }
    let headers = read_program_headers(image);
    let ghost hs = image_headers(image@);
    let len = image.len();
    let mut i: usize = 0;
    while i < headers.len()
        invariant
            i <= headers@.len(),
            headers@ == hs,
            hs == image_headers(image@),
            len == image@.len(),
            forall|k: int| 0 <= k < i && (#[trigger] hs[k]).loadable ==> segment_ok(hs[k], len),
        decreases headers@.len() - i,
    {
        if headers[i].loadable && !segment_fits(&headers[i], len) {
            proof {
                assert(hs[i as int].loadable && !segment_ok(hs[i as int], image@.len() as usize));
            }
            return None;
        }
        i = i + 1;
    }
    Some((entry, plan_segments(&headers, len)))
}

} // verus!
