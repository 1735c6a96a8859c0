//! The byte layout of the 64-bit ELF headers, written out field after field, and the
//! fact that the loader reads back exactly the fields such bytes encode.
use vstd::prelude::*;
use crate::elf::{pow256, le_value, header_at, elf_header, ph_offset, ph_entry_size, ph_count, ProgramHeader, PT_LOAD};

verus! {

/// The `n` bytes of `v` in little-endian order, least significant first.
pub open spec fn le_bytes(v: nat, n: nat) -> Seq<u8>
    decreases n,
{
    if n == 0 {
        Seq::empty()
    } else {
        seq![(v % 256) as u8] + le_bytes(v / 256, (n - 1) as nat)
    }
}

/// An ELF64 program header (`Elf64_Phdr`) as it lies in a file: type, flags, file
/// offset, virtual address, physical address, file size, memory size, alignment.
pub open spec fn phdr64_bytes(p_type: u32, p_flags: u32, p_offset: u64, p_vaddr: u64, p_paddr: u64, p_filesz: u64, p_memsz: u64, p_align: u64) -> Seq<u8> {
    le_bytes(p_type as nat, 4) + le_bytes(p_flags as nat, 4) + le_bytes(p_offset as nat, 8)
        + le_bytes(p_vaddr as nat, 8) + le_bytes(p_paddr as nat, 8) + le_bytes(p_filesz as nat, 8)
        + le_bytes(p_memsz as nat, 8) + le_bytes(p_align as nat, 8)
}

proof fn lemma_le_bytes_len(v: nat, n: nat)
    ensures
        le_bytes(v, n).len() == n,
    decreases n,
{
    if n > 0 {
        lemma_le_bytes_len(v / 256, (n - 1) as nat);
    }
}

/// Reading back `n` little-endian bytes of `v` gives `v` when it fits in them.
proof fn lemma_le_round_trip(s: Seq<u8>, off: int, v: nat, n: nat)
    requires
        0 <= off,
        off + n <= s.len(),
        v < pow256(n),
        s.subrange(off, off + n) == le_bytes(v, n),
    ensures
        le_value(s, off, n) == v,
    decreases n,
{
    if n > 0 {
        let rest = le_bytes(v / 256, (n - 1) as nat);
        lemma_le_bytes_len(v / 256, (n - 1) as nat);
        assert(le_bytes(v, n) == seq![(v % 256) as u8] + rest);
        assert(s[off] == s.subrange(off, off + n)[0]);
        assert(s[off] == (v % 256) as u8);
        assert(s.subrange(off + 1, off + n) =~= s.subrange(off, off + n).subrange(1, n as int));
        assert((seq![(v % 256) as u8] + rest).subrange(1, n as int) =~= rest);
        let p = pow256((n - 1) as nat);
        assert(v / 256 < p) by (nonlinear_arith)
            requires v < 256 * p;
        lemma_le_round_trip(s, off + 1, v / 256, (n - 1) as nat);
        assert(v % 256 + 256 * (v / 256) == v) by (nonlinear_arith);
    }
}

/// Field `f` of `n` bytes at `at` inside the bytes `e` that lie in `s` from `start` reads
/// back as its value.
proof fn lemma_field(s: Seq<u8>, start: int, e: Seq<u8>, at: int, v: nat, n: nat)
    requires
        0 <= start,
        start + e.len() <= s.len(),
        s.subrange(start, start + e.len()) == e,
        0 <= at,
        at + n <= e.len(),
        e.subrange(at, at + n) == le_bytes(v, n),
        v < pow256(n),
    ensures
        le_value(s, start + at, n) == v,
{
    assert(s.subrange(start + at, start + at + n) =~= e.subrange(at, at + n));
    lemma_le_round_trip(s, start + at, v, n);
}

/// The loader reads an ELF64 program header by its layout: whatever bytes lie at
/// `start`, if they encode a header field by field, the header read there has that
/// header's type test, flags, file offset, address, file size and memory size.
pub proof fn law_program_header_layout(s: Seq<u8>, start: int, p_type: u32, p_flags: u32, p_offset: u64, p_vaddr: u64, p_paddr: u64, p_filesz: u64, p_memsz: u64, p_align: u64)
    requires
        0 <= start,
        start + 56 <= s.len(),
        s.subrange(start, start + 56) == phdr64_bytes(p_type, p_flags, p_offset, p_vaddr, p_paddr, p_filesz, p_memsz, p_align),
    ensures
        header_at(s, start) == (ProgramHeader {
            loadable: p_type == PT_LOAD,
            flags: p_flags,
            offset: p_offset as usize,
            vaddr: p_vaddr as usize,
            file_size: p_filesz as usize,
            mem_size: p_memsz as usize,
        }),
{
    reveal_with_fuel(pow256, 9);
    assert(pow256(4) == 0x1_0000_0000);
    assert(pow256(8) == 0x1_0000_0000_0000_0000);
    let b0 = le_bytes(p_type as nat, 4);
    let b1 = le_bytes(p_flags as nat, 4);
    let b2 = le_bytes(p_offset as nat, 8);
    let b3 = le_bytes(p_vaddr as nat, 8);
    let b4 = le_bytes(p_paddr as nat, 8);
    let b5 = le_bytes(p_filesz as nat, 8);
    let b6 = le_bytes(p_memsz as nat, 8);
    let b7 = le_bytes(p_align as nat, 8);
    lemma_le_bytes_len(p_type as nat, 4);
    lemma_le_bytes_len(p_flags as nat, 4);
    lemma_le_bytes_len(p_offset as nat, 8);
    lemma_le_bytes_len(p_vaddr as nat, 8);
    lemma_le_bytes_len(p_paddr as nat, 8);
    lemma_le_bytes_len(p_filesz as nat, 8);
    lemma_le_bytes_len(p_memsz as nat, 8);
    lemma_le_bytes_len(p_align as nat, 8);
    let e = phdr64_bytes(p_type, p_flags, p_offset, p_vaddr, p_paddr, p_filesz, p_memsz, p_align);
    assert(e.len() == 56);
    assert(e.subrange(0, 4) =~= b0);
    assert(e.subrange(4, 8) =~= b1);
    assert(e.subrange(8, 16) =~= b2);
    assert(e.subrange(16, 24) =~= b3);
    assert(e.subrange(32, 40) =~= b5);
    assert(e.subrange(40, 48) =~= b6);
    lemma_field(s, start, e, 0, p_type as nat, 4);
    lemma_field(s, start, e, 4, p_flags as nat, 4);
    lemma_field(s, start, e, 8, p_offset as nat, 8);
    lemma_field(s, start, e, 16, p_vaddr as nat, 8);
    lemma_field(s, start, e, 32, p_filesz as nat, 8);
    lemma_field(s, start, e, 40, p_memsz as nat, 8);
}

/// An ELF64 file header (`Elf64_Ehdr`) as it lies at the start of a file: the 16
/// identification bytes, then type, machine, version, entry point, program-header
/// table offset, section-header table offset, flags, header size, program-header entry
/// size and count, section-header entry size and count, and the section-name index.
pub open spec fn ehdr64_bytes(ident: Seq<u8>, e_type: u16, e_machine: u16, e_version: u32, e_entry: u64, e_phoff: u64, e_shoff: u64, e_flags: u32, e_ehsize: u16, e_phentsize: u16, e_phnum: u16, e_shentsize: u16, e_shnum: u16, e_shstrndx: u16) -> Seq<u8> {
    ident + le_bytes(e_type as nat, 2) + le_bytes(e_machine as nat, 2) + le_bytes(e_version as nat, 4)
        + le_bytes(e_entry as nat, 8) + le_bytes(e_phoff as nat, 8) + le_bytes(e_shoff as nat, 8)
        + le_bytes(e_flags as nat, 4) + le_bytes(e_ehsize as nat, 2) + le_bytes(e_phentsize as nat, 2)
        + le_bytes(e_phnum as nat, 2) + le_bytes(e_shentsize as nat, 2) + le_bytes(e_shnum as nat, 2)
        + le_bytes(e_shstrndx as nat, 2)
}

/// The loader reads an ELF64 file header by its layout: an image that starts with the
/// magic number, class 64-bit and a header encoded field by field has that header's
/// type, machine and entry point, and its program-header table where the header puts
/// it, with the entry size and count the header gives.
pub proof fn law_file_header_layout(s: Seq<u8>, ident: Seq<u8>, e_type: u16, e_machine: u16, e_version: u32, e_entry: u64, e_phoff: u64, e_shoff: u64, e_flags: u32, e_ehsize: u16, e_phentsize: u16, e_phnum: u16, e_shentsize: u16, e_shnum: u16, e_shstrndx: u16)
    requires
        ident.len() == 16,
        ident[0] == 0x7f && ident[1] == 0x45 && ident[2] == 0x4c && ident[3] == 0x46,
        ident[4] == 2,
        s.len() >= 64,
        s.subrange(0, 64) == ehdr64_bytes(ident, e_type, e_machine, e_version, e_entry, e_phoff, e_shoff, e_flags, e_ehsize, e_phentsize, e_phnum, e_shentsize, e_shnum, e_shstrndx),
    ensures
        elf_header(s) == Some((2u8, e_type, e_machine, e_entry)),
        ph_offset(s) == e_phoff,
        ph_entry_size(s) == e_phentsize,
        ph_count(s) == e_phnum,
{
    reveal_with_fuel(pow256, 9);
    assert(pow256(2) == 0x1_0000);
    assert(pow256(8) == 0x1_0000_0000_0000_0000);
    lemma_le_bytes_len(e_type as nat, 2);
    lemma_le_bytes_len(e_machine as nat, 2);
    lemma_le_bytes_len(e_version as nat, 4);
    lemma_le_bytes_len(e_entry as nat, 8);
    lemma_le_bytes_len(e_phoff as nat, 8);
    lemma_le_bytes_len(e_shoff as nat, 8);
    lemma_le_bytes_len(e_flags as nat, 4);
    lemma_le_bytes_len(e_ehsize as nat, 2);
    lemma_le_bytes_len(e_phentsize as nat, 2);
    lemma_le_bytes_len(e_phnum as nat, 2);
    lemma_le_bytes_len(e_shentsize as nat, 2);
    lemma_le_bytes_len(e_shnum as nat, 2);
    lemma_le_bytes_len(e_shstrndx as nat, 2);
    let e = ehdr64_bytes(ident, e_type, e_machine, e_version, e_entry, e_phoff, e_shoff, e_flags, e_ehsize, e_phentsize, e_phnum, e_shentsize, e_shnum, e_shstrndx);
    assert(e.len() == 64);
    assert(e.subrange(0, 16) =~= ident);
    assert(e.subrange(16, 18) =~= le_bytes(e_type as nat, 2));
    assert(e.subrange(18, 20) =~= le_bytes(e_machine as nat, 2));
    assert(e.subrange(24, 32) =~= le_bytes(e_entry as nat, 8));
    assert(e.subrange(32, 40) =~= le_bytes(e_phoff as nat, 8));
    assert(e.subrange(54, 56) =~= le_bytes(e_phentsize as nat, 2));
    assert(e.subrange(56, 58) =~= le_bytes(e_phnum as nat, 2));
    assert forall|i: int| 0 <= i < 16 implies s[i] == ident[i] by {
        assert(s[i] == s.subrange(0, 64)[i]);
        assert(e[i] == e.subrange(0, 16)[i]);
    }
    lemma_field(s, 0, e, 16, e_type as nat, 2);
    lemma_field(s, 0, e, 18, e_machine as nat, 2);
    lemma_field(s, 0, e, 24, e_entry as nat, 8);
    lemma_field(s, 0, e, 32, e_phoff as nat, 8);
    lemma_field(s, 0, e, 54, e_phentsize as nat, 2);
    lemma_field(s, 0, e, 56, e_phnum as nat, 2);
}

} // verus!
