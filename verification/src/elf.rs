//! Minimal ELF support, sufficient for a very simple 64-bit static Linux
//! executable: the image of an executable with one segment of code and one
//! of zeroed data, and the lookup of a section of an object file by name.
//!
//! All numbers are little-endian. Bytes that a file does not have read as
//! zero.

use vstd::prelude::*;

verus! {

pub const ELFCLASS64: u8 = 2;

pub const ELFDATA2LSB: u8 = 1;

pub const ELFOSABI_SYSV: u8 = 0;

pub const ET_EXEC: u16 = 2;

pub const EM_X86_64: u16 = 62;

pub const PT_LOAD: u32 = 1;

pub const PF_X: u32 = 1;

pub const PF_W: u32 = 2;

pub const PF_R: u32 = 4;

pub const EHDR_SIZE: usize = 64;

pub const PHDR_SIZE: usize = 56;

pub const SHDR_SIZE: usize = 64;

/// The address that the code is loaded at.
pub const LOAD_ADDRESS: u64 = 0x401000;

/// The size of a page: segments begin at multiples of it.
pub const PAGE_SIZE: u64 = 0x1000;

/// The identification at the start of an ELF file.
#[allow(non_camel_case_types)]
#[derive(Debug, Clone, Copy)]
pub struct Elf64_Ident {
    pub ei_mag: [u8; 4],
    pub ei_class: u8,
    pub ei_data: u8,
    pub ei_version: u8,
    pub ei_osabi: u8,
    pub ei_abiversion: u8,
    pub ei_pad: [u8; 7],
}

/// The ELF header.
#[allow(non_camel_case_types)]
#[derive(Debug, Clone, Copy)]
pub struct Elf64_Ehdr {
    pub e_ident: Elf64_Ident,
    pub e_type: u16,
    pub e_machine: u16,
    pub e_version: u32,
    pub e_entry: u64,
    pub e_phoff: u64,
    pub e_shoff: u64,
    pub e_flags: u32,
    pub e_ehsize: u16,
    pub e_phentsize: u16,
    pub e_phnum: u16,
    pub e_shentsize: u16,
    pub e_shnum: u16,
    pub e_shstrndx: u16,
}

/// A program header.
#[allow(non_camel_case_types)]
#[derive(Debug, Clone, Copy)]
pub struct Elf64_Phdr {
    pub p_type: u32,
    pub p_flags: u32,
    pub p_offset: u64,
    pub p_vaddr: u64,
    pub p_paddr: u64,
    pub p_filesz: u64,
    pub p_memsz: u64,
    pub p_align: u64,
}

/// A section header.
#[allow(non_camel_case_types)]
#[derive(Debug, Clone, Copy, PartialEq, Eq, Structural)]
pub struct Elf64_Shdr {
    pub sh_name: u32,
    pub sh_type: u32,
    pub sh_flags: u64,
    pub sh_addr: u64,
    pub sh_offset: u64,
    pub sh_size: u64,
    pub sh_link: u32,
    pub sh_info: u32,
    pub sh_addralign: u64,
    pub sh_entsize: u64,
}

/// A relocation with an addend.
#[allow(non_camel_case_types)]
#[derive(Debug, Clone, Copy, PartialEq, Eq, Structural)]
pub struct Elf64_Rela {
    pub r_offset: u64,
    pub r_info: u64,
    pub r_addend: i64,
}

/// The `n` low bytes of a number, the lowest first.
pub open spec fn le_bytes(x: nat, n: nat) -> Seq<u8>
    decreases n,
{
    if n == 0 {
        Seq::empty()
    } else {
        seq![(x % 256) as u8] + le_bytes(x / 256, (n - 1) as nat)
    }
}

/// The byte of a file at a position; zero where the file has none.
pub open spec fn byte_at(file: Seq<u8>, pos: int) -> u8 {
    if 0 <= pos < file.len() {
        file[pos]
    } else {
        0
    }
}

/// The number that the `n` bytes of a file at a position stand for.
pub open spec fn le_value(file: Seq<u8>, pos: int, n: nat) -> nat
    decreases n,
{
    if n == 0 {
        0
    } else {
        byte_at(file, pos) as nat + 256 * le_value(file, pos + 1, (n - 1) as nat)
    }
}

/// The first four bytes of an ELF file.
pub open spec fn magic() -> Seq<u8> {
    seq![0x7fu8, 0x45u8, 0x4cu8, 0x46u8]
}

/// The bytes of the header of the executable: for x86_64, with two program
/// headers after the header and no sections.
pub open spec fn ehdr_bytes() -> Seq<u8> {
    magic() + seq![ELFCLASS64, ELFDATA2LSB, 1u8, ELFOSABI_SYSV, 0u8] + Seq::new(7, |i: int| 0u8)
        + le_bytes(ET_EXEC as nat, 2) + le_bytes(EM_X86_64 as nat, 2) + le_bytes(1, 4)
        + le_bytes(LOAD_ADDRESS as nat, 8) + le_bytes(EHDR_SIZE as nat, 8) + le_bytes(0, 8)
        + le_bytes(0, 4) + le_bytes(EHDR_SIZE as nat, 2) + le_bytes(PHDR_SIZE as nat, 2)
        + le_bytes(2, 2) + le_bytes(SHDR_SIZE as nat, 2) + le_bytes(0, 2) + le_bytes(0, 2)
}

/// The bytes of a program header.
pub open spec fn phdr_bytes(p: Elf64_Phdr) -> Seq<u8> {
    le_bytes(p.p_type as nat, 4) + le_bytes(p.p_flags as nat, 4) + le_bytes(p.p_offset as nat, 8)
        + le_bytes(p.p_vaddr as nat, 8) + le_bytes(p.p_paddr as nat, 8) + le_bytes(
        p.p_filesz as nat,
        8,
    ) + le_bytes(p.p_memsz as nat, 8) + le_bytes(p.p_align as nat, 8)
}

/// A size rounded up to whole pages.
pub open spec fn page_up(size: nat) -> nat {
    ((size + 0xfff) / 0x1000) * 0x1000
}

/// The program header of the code: `size` bytes after the padded headers,
/// loaded readable and executable.
pub open spec fn text_phdr(size: u64) -> Elf64_Phdr {
    Elf64_Phdr {
        p_type: PT_LOAD,
        p_flags: 5,
        p_offset: PAGE_SIZE,
        p_vaddr: LOAD_ADDRESS,
        p_paddr: LOAD_ADDRESS,
        p_filesz: size,
        p_memsz: size,
        p_align: PAGE_SIZE,
    }
}

/// The program header of the zeroed data: nothing in the file, `bss_size`
/// bytes in memory on the page after the code, readable and writable.
pub open spec fn bss_phdr(size: u64, bss_size: u64) -> Elf64_Phdr {
    Elf64_Phdr {
        p_type: PT_LOAD,
        p_flags: 6,
        p_offset: (PAGE_SIZE + page_up(size as nat)) as u64,
        p_vaddr: (LOAD_ADDRESS + page_up(size as nat)) as u64,
        p_paddr: (LOAD_ADDRESS + page_up(size as nat)) as u64,
        p_filesz: 0,
        p_memsz: bss_size,
        p_align: PAGE_SIZE,
    }
}

/// The bytes between the headers and the code: the headers are padded to a
/// page with the character `0`.
pub open spec fn padding() -> Seq<u8> {
    Seq::new((0x1000 - 176) as nat, |i: int| 0x30u8)
}

/// The image of the executable for the code `text` and `bss_size` bytes of
/// zeroed data.
pub open spec fn elf64_image_spec(text: Seq<u8>, bss_size: u64) -> Seq<u8> {
    ehdr_bytes() + phdr_bytes(text_phdr(text.len() as u64)) + phdr_bytes(
        bss_phdr(text.len() as u64, bss_size),
    ) + padding() + text
}

/// The largest code that an image can hold: the addresses behind it must
/// not wrap.
pub const MAX_TEXT_SIZE: u64 = 0xffff_ffff_ff00_0000;

fn push_le(out: &mut Vec<u8>, x: u64, n: usize)
    ensures
        final(out)@ == old(out)@ + le_bytes(x as nat, n as nat),
{
    let mut rest = x;
    let mut k: usize = 0;
    let ghost start = out@;
    assert(out@ =~= start + le_bytes(x as nat, 0));
    while k < n
        invariant
            k <= n,
            start == old(out)@,
            out@ + le_bytes(rest as nat, (n - k) as nat) == start + le_bytes(x as nat, n as nat),
        decreases n - k,
    {
        let ghost before = out@;
        out.push((rest % 256) as u8);
        proof {
            let tail = le_bytes((rest / 256) as nat, (n - k - 1) as nat);
            assert(le_bytes(rest as nat, (n - k) as nat) == seq![(rest % 256) as u8] + tail);
            assert(out@ + tail =~= before + (seq![(rest % 256) as u8] + tail));
        }
        rest = rest / 256;
        k = k + 1;
    }
    assert(out@ + le_bytes(rest as nat, 0) =~= out@);
}

fn push_phdr(out: &mut Vec<u8>, p: &Elf64_Phdr)
    ensures
        final(out)@ == old(out)@ + phdr_bytes(*p),
{
    push_le(out, p.p_type as u64, 4);
    push_le(out, p.p_flags as u64, 4);
    push_le(out, p.p_offset, 8);
    push_le(out, p.p_vaddr, 8);
    push_le(out, p.p_paddr, 8);
    push_le(out, p.p_filesz, 8);
    push_le(out, p.p_memsz, 8);
    push_le(out, p.p_align, 8);
    assert(out@ =~= old(out)@ + phdr_bytes(*p));
}

fn push_ehdr(out: &mut Vec<u8>)
    ensures
        final(out)@ == old(out)@ + ehdr_bytes(),
{
    out.push(0x7f);
    out.push(0x45);
    out.push(0x4c);
    out.push(0x46);
    out.push(ELFCLASS64);
    out.push(ELFDATA2LSB);
    out.push(1);
    out.push(ELFOSABI_SYSV);
    out.push(0);
    let mut k: usize = 0;
    let ghost ident = out@;
    while k < 7
        invariant
            k <= 7,
            out@ == ident + Seq::new(k as nat, |i: int| 0u8),
        decreases 7 - k,
    {
        out.push(0);
        k = k + 1;
        assert(out@ =~= ident + Seq::new(k as nat, |i: int| 0u8));
    }
    assert(ident =~= old(out)@ + magic() + seq![
        ELFCLASS64,
        ELFDATA2LSB,
        1u8,
        ELFOSABI_SYSV,
        0u8,
    ]);
    push_le(out, ET_EXEC as u64, 2);
    push_le(out, EM_X86_64 as u64, 2);
    push_le(out, 1, 4);
    push_le(out, LOAD_ADDRESS, 8);
    push_le(out, EHDR_SIZE as u64, 8);
    push_le(out, 0, 8);
    push_le(out, 0, 4);
    push_le(out, EHDR_SIZE as u64, 2);
    push_le(out, PHDR_SIZE as u64, 2);
    push_le(out, 2, 2);
    push_le(out, SHDR_SIZE as u64, 2);
    push_le(out, 0, 2);
    push_le(out, 0, 2);
    assert(out@ =~= old(out)@ + ehdr_bytes());
}

/// The image of a static executable: the header, a program header for the
/// code and one for the zeroed data, padding to a page, and the code.
pub fn elf64_image(text: &[u8], bss_size: u64) -> (image: Vec<u8>)
    requires
        text.len() <= MAX_TEXT_SIZE,
    ensures
        image@ == elf64_image_spec(text@, bss_size),
{
    let size = text.len() as u64;
    let bss_offset = (size + 0xfff) / 0x1000 * 0x1000;
    let phdr_text = Elf64_Phdr {
        p_type: PT_LOAD,
        p_flags: 5,
        p_offset: PAGE_SIZE,
        p_vaddr: LOAD_ADDRESS,
        p_paddr: LOAD_ADDRESS,
        p_filesz: size,
        p_memsz: size,
        p_align: PAGE_SIZE,
    };
    let phdr_bss = Elf64_Phdr {
        p_type: PT_LOAD,
        p_flags: 6,
        p_offset: PAGE_SIZE + bss_offset,
        p_vaddr: LOAD_ADDRESS + bss_offset,
        p_paddr: LOAD_ADDRESS + bss_offset,
        p_filesz: 0,
        p_memsz: bss_size,
        p_align: PAGE_SIZE,
    };
    assert(phdr_text == text_phdr(size));
    assert(phdr_bss == bss_phdr(size, bss_size));
    let mut image: Vec<u8> = Vec::new();
    push_ehdr(&mut image);
    push_phdr(&mut image, &phdr_text);
    push_phdr(&mut image, &phdr_bss);
    let ghost headers = image@;
    let mut k: usize = 0;
    while k < 0x1000 - 176
        invariant
            k <= 0x1000 - 176,
            image@ == headers + Seq::new(k as nat, |i: int| 0x30u8),
        decreases 0x1000 - 176 - k,
    {
        image.push(0x30);
        k = k + 1;
        assert(image@ =~= headers + Seq::new(k as nat, |i: int| 0x30u8));
    }
    let ghost padded = image@;
    let mut j: usize = 0;
    assert(image@ =~= padded + text@.subrange(0, 0));
    while j < text.len()
        invariant
            j <= text.len(),
            image@ == padded + text@.subrange(0, j as int),
        decreases text.len() - j,
    {
        image.push(text[j]);
        j = j + 1;
        assert(image@ =~= padded + text@.subrange(0, j as int));
    }
    assert(text@.subrange(0, j as int) =~= text@);
    assert(image@ =~= elf64_image_spec(text@, bss_size));
    image
}

/// The section header that stands at a position of a file.
pub open spec fn shdr_at(file: Seq<u8>, pos: int) -> Elf64_Shdr {
    Elf64_Shdr {
        sh_name: le_value(file, pos, 4) as u32,
        sh_type: le_value(file, pos + 4, 4) as u32,
        sh_flags: le_value(file, pos + 8, 8) as u64,
        sh_addr: le_value(file, pos + 16, 8) as u64,
        sh_offset: le_value(file, pos + 24, 8) as u64,
        sh_size: le_value(file, pos + 32, 8) as u64,
        sh_link: le_value(file, pos + 40, 4) as u32,
        sh_info: le_value(file, pos + 44, 4) as u32,
        sh_addralign: le_value(file, pos + 48, 8) as u64,
        sh_entsize: le_value(file, pos + 56, 8) as u64,
    }
}

/// Where the section headers of a file begin.
pub open spec fn e_shoff(file: Seq<u8>) -> int {
    le_value(file, 40, 8) as int
}

/// The number of section headers of a file.
pub open spec fn e_shnum(file: Seq<u8>) -> int {
    le_value(file, 60, 2) as int
}

/// The index of the section header of the table of section names.
pub open spec fn e_shstrndx(file: Seq<u8>) -> int {
    le_value(file, 62, 2) as int
}

/// Section header `k` of a file.
pub open spec fn section(file: Seq<u8>, k: int) -> Elf64_Shdr {
    shdr_at(file, e_shoff(file) + 64 * k)
}

/// The section header of the table of section names.
pub open spec fn names_section(file: Seq<u8>) -> Elf64_Shdr {
    section(file, e_shstrndx(file))
}

/// Whether the name of a section, which begins at byte `start` of the table
/// of names and ends before the first zero byte or with the table, is
/// `name`.
pub open spec fn named(file: Seq<u8>, start: int, name: Seq<u8>) -> bool {
    let table = names_section(file);
    &&& start + name.len() <= table.sh_size
    &&& forall|i: int|
        0 <= i < name.len() ==> #[trigger] name[i] != 0 && byte_at(
            file,
            table.sh_offset + start + i,
        ) == name[i]
    &&& (start + name.len() == table.sh_size || byte_at(
        file,
        table.sh_offset + start + name.len(),
    ) == 0)
}

/// Whether the name of every section before section `n` begins within the
/// table of names.
pub open spec fn names_within(file: Seq<u8>, n: int) -> bool {
    forall|k: int|
        0 <= k < n ==> (#[trigger] section(file, k)).sh_name <= names_section(file).sh_size
}

/// Whether section `k` is the first section named `name`.
pub open spec fn first_named(file: Seq<u8>, name: Seq<u8>, k: int) -> bool {
    &&& 0 <= k < e_shnum(file)
    &&& named(file, section(file, k).sh_name as int, name)
    &&& forall|j: int| 0 <= j < k ==> !named(file, (#[trigger] section(file, j)).sh_name as int, name)
}

fn read_byte(file: &[u8], pos: u64, i: u64) -> (b: u8)
    ensures
        b == byte_at(file@, pos + i),
{
    let len = file.len();
    if pos > u64::MAX - i {
        0
    } else if pos + i >= len as u64 {
        0
    } else {
        file[(pos + i) as usize]
    }
}

fn read_le(file: &[u8], pos: u64, i: u64, n: u64) -> (x: u64)
    requires
        n <= 8,
        i + n <= 72,
    ensures
        x == le_value(file@, pos + i, n as nat),
    decreases n,
{
    if n == 0 {
        0
    } else {
        let low = read_byte(file, pos, i);
        let high = read_le(file, pos, i + 1, n - 1);
        proof {
            lemma_le_value_bound(file@, pos + i + 1, (n - 1) as nat);
            assert(high < pow256((n - 1) as nat));
            lemma_pow256(n as nat);
        }
        low as u64 + 256 * high
    }
}

/// 256 to the power of `n`.
pub open spec fn pow256(n: nat) -> nat
    decreases n,
{
    if n == 0 {
        1
    } else {
        256 * pow256((n - 1) as nat)
    }
}

proof fn lemma_pow256(n: nat)
    requires
        1 <= n <= 8,
    ensures
        256 * pow256((n - 1) as nat) == pow256(n),
        pow256(n) <= 0x1_0000_0000_0000_0000,
{
    reveal_with_fuel(pow256, 9);
}

proof fn lemma_le_value_bound(file: Seq<u8>, pos: int, n: nat)
    ensures
        le_value(file, pos, n) < pow256(n),
    decreases n,
{
    if n > 0 {
        lemma_le_value_bound(file, pos + 1, (n - 1) as nat);
    }
}

fn read_shdr(file: &[u8], pos: u64) -> (h: Elf64_Shdr)
    ensures
        h == shdr_at(file@, pos as int),
{
    proof {
        lemma_le_value_bound(file@, pos as int, 4);
        lemma_le_value_bound(file@, pos + 4, 4);
        lemma_le_value_bound(file@, pos + 40, 4);
        lemma_le_value_bound(file@, pos + 44, 4);
        reveal_with_fuel(pow256, 5);
    }
    Elf64_Shdr {
        sh_name: read_le(file, pos, 0, 4) as u32,
        sh_type: read_le(file, pos, 4, 4) as u32,
        sh_flags: read_le(file, pos, 8, 8),
        sh_addr: read_le(file, pos, 16, 8),
        sh_offset: read_le(file, pos, 24, 8),
        sh_size: read_le(file, pos, 32, 8),
        sh_link: read_le(file, pos, 40, 4) as u32,
        sh_info: read_le(file, pos, 44, 4) as u32,
        sh_addralign: read_le(file, pos, 48, 8),
        sh_entsize: read_le(file, pos, 56, 8),
    }
}

/// Beyond the end of a file every number reads as zero.
proof fn lemma_le_value_beyond(file: Seq<u8>, pos: int, n: nat)
    requires
        pos >= file.len(),
    ensures
        le_value(file, pos, n) == 0,
    decreases n,
{
    if n > 0 {
        lemma_le_value_beyond(file, pos + 1, (n - 1) as nat);
    }
}

/// The section header that stands `64 * k` bytes after `base`.
fn read_shdr_at(file: &[u8], base: u64, k: u64) -> (h: Elf64_Shdr)
    requires
        k <= 0xffff,
    ensures
        h == shdr_at(file@, base + 64 * k),
{
    let len = file.len();
    if base > u64::MAX - 64 * k {
        proof {
            let pos = base + 64 * k;
            lemma_le_value_beyond(file@, pos, 4);
            lemma_le_value_beyond(file@, pos + 4, 4);
            lemma_le_value_beyond(file@, pos + 8, 8);
            lemma_le_value_beyond(file@, pos + 16, 8);
            lemma_le_value_beyond(file@, pos + 24, 8);
            lemma_le_value_beyond(file@, pos + 32, 8);
            lemma_le_value_beyond(file@, pos + 40, 4);
            lemma_le_value_beyond(file@, pos + 44, 4);
            lemma_le_value_beyond(file@, pos + 48, 8);
            lemma_le_value_beyond(file@, pos + 56, 8);
        }
        Elf64_Shdr {
            sh_name: 0,
            sh_type: 0,
            sh_flags: 0,
            sh_addr: 0,
            sh_offset: 0,
            sh_size: 0,
            sh_link: 0,
            sh_info: 0,
            sh_addralign: 0,
            sh_entsize: 0,
        }
    } else {
        read_shdr(file, base + 64 * k)
    }
}

/// The three numbers of the header that the lookup of a section needs:
/// where the section headers begin, how many there are, and which of them
/// is the table of names.
fn read_section_table(file: &[u8]) -> (r: (u64, u64, u64))
    ensures
        r.0 == e_shoff(file@),
        r.1 == e_shnum(file@),
        r.2 == e_shstrndx(file@),
        r.1 <= 0xffff,
        r.2 <= 0xffff,
{
    proof {
        lemma_le_value_bound(file@, 60, 2);
        lemma_le_value_bound(file@, 62, 2);
        reveal_with_fuel(pow256, 3);
    }
    (read_le(file, 0, 40, 8), read_le(file, 0, 60, 2), read_le(file, 0, 62, 2))
}

/// Whether the name that begins at byte `start` of the table of names is
/// `name`.
fn is_named(file: &[u8], table: &Elf64_Shdr, start: u64, name: &[u8]) -> (b: bool)
    requires
        *table == names_section(file@),
        start <= table.sh_size,
    ensures
        b == named(file@, start as int, name@),
{
    let len = name.len();
    if len as u64 > table.sh_size - start {
        return false;
    }
    let mut i: usize = 0;
    while i < len
        invariant
            i <= len,
            len == name@.len(),
            *table == names_section(file@),
            start + len <= table.sh_size,
            forall|j: int|
                0 <= j < i ==> #[trigger] name@[j] != 0 && byte_at(
                    file@,
                    table.sh_offset + start + j,
                ) == name@[j],
        decreases len - i,
    {
        if name[i] == 0 || read_byte(file, table.sh_offset, start + i as u64) != name[i] {
            return false;
        }
        i = i + 1;
    }
    if start + len as u64 == table.sh_size {
        true
    } else {
        read_byte(file, table.sh_offset, start + len as u64) == 0
    }
}

/// Whether the name of every section of a file begins within the table of
/// names: a file of which this does not hold cannot be searched.
pub fn elf64_names_within(file: &[u8]) -> (ok: bool)
    ensures
        ok == names_within(file@, e_shnum(file@)),
{
    let (shoff, shnum, shstrndx) = read_section_table(file);
    let table = read_shdr_at(file, shoff, shstrndx);
    let mut k: u64 = 0;
    while k < shnum
        invariant
            k <= shnum,
            shnum == e_shnum(file@),
            shnum <= 0xffff,
            shoff == e_shoff(file@),
            table == names_section(file@),
            names_within(file@, k as int),
        decreases shnum - k,
    {
        let shdr = read_shdr_at(file, shoff, k);
        assert(shdr == section(file@, k as int));
        if shdr.sh_name as u64 > table.sh_size {
            return false;
        }
        k = k + 1;
    }
    true
}

/// The header of the first section of an object file that is named
/// `name`, if there is one.
pub fn elf64_find_section(file: &[u8], name: &[u8]) -> (r: Option<Elf64_Shdr>)
    requires
        names_within(file@, e_shnum(file@)),
    ensures
        match r {
            Some(shdr) => exists|k: int|
                first_named(file@, name@, k) && shdr == #[trigger] section(file@, k),
            None => forall|k: int|
                0 <= k < e_shnum(file@) ==> !named(
                    file@,
                    (#[trigger] section(file@, k)).sh_name as int,
                    name@,
                ),
        },
{
    let (shoff, shnum, shstrndx) = read_section_table(file);
    let table = read_shdr_at(file, shoff, shstrndx);
    let mut k: u64 = 0;
    while k < shnum
        invariant
            k <= shnum,
            shnum == e_shnum(file@),
            shnum <= 0xffff,
            shoff == e_shoff(file@),
            table == names_section(file@),
            names_within(file@, shnum as int),
            forall|j: int|
                0 <= j < k ==> !named(file@, (#[trigger] section(file@, j)).sh_name as int, name@),
        decreases shnum - k,
    {
        let shdr = read_shdr_at(file, shoff, k);
        assert(shdr == section(file@, k as int));
        if is_named(file, &table, shdr.sh_name as u64, name) {
            assert(first_named(file@, name@, k as int));
            return Some(shdr);
        }
        k = k + 1;
    }
    None
}

} // verus!
