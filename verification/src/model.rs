//! Mathematical model of the decoder: how byte sequences are interpreted as
//! unsigned integers under the two recognized byte orders, and the exact
//! layout of the identification block, the file header and the section
//! header records.

use vstd::prelude::*;

verus! {

/// Identification-block class value selecting 32-bit field widths.
pub const ELFCLASS32: u8 = 1;

/// Identification-block class value selecting 64-bit field widths.
pub const ELFCLASS64: u8 = 2;

/// Identification-block data-encoding value selecting little-endian byte order.
pub const ELFDATA2LSB: u8 = 1;

/// Identification-block data-encoding value selecting big-endian byte order.
pub const ELFDATA2MSB: u8 = 2;

/// Everything that can stop a decode: a malformed identification block,
/// a field or section payload that runs past the end of the input, or a
/// string-table index that names no section.
#[derive(Clone, Copy, PartialEq, Eq, Structural, Debug)]
pub enum ElfError {
    /// A fixed-size field or a section payload needs more bytes than the input holds.
    UnexpectedEof,
    /// The first four bytes are not the magic sequence.
    InvalidMagic,
    /// The data-encoding byte selects neither little- nor big-endian order.
    InvalidEncoding,
    /// The class byte selects neither 32-bit nor 64-bit field widths.
    InvalidClass,
    /// The string-table section index is not the index of any section.
    StringTableOutOfRange,
}

pub open spec fn valid_encoding(e: u8) -> bool {
    e == ELFDATA2LSB || e == ELFDATA2MSB
}

pub open spec fn valid_class(c: u8) -> bool {
    c == ELFCLASS32 || c == ELFCLASS64
}

/// The value of a byte sequence read as an unsigned integer with the least
/// significant byte first.
pub open spec fn le_val(s: Seq<u8>) -> nat
    decreases s.len(),
{
    if s.len() == 0 {
        0
    } else {
        s[0] as nat + 256 * le_val(s.subrange(1, s.len() as int))
    }
}

/// The value of a byte sequence read as an unsigned integer with the most
/// significant byte first.
pub open spec fn be_val(s: Seq<u8>) -> nat
    decreases s.len(),
{
    if s.len() == 0 {
        0
    } else {
        256 * be_val(s.subrange(0, s.len() - 1)) + s[s.len() - 1] as nat
    }
}

/// The value of a byte sequence under the byte order that the data-encoding
/// byte `enc` selects.
pub open spec fn field_val(enc: u8, s: Seq<u8>) -> nat {
    if enc == ELFDATA2LSB {
        le_val(s)
    } else {
        be_val(s)
    }
}

/// The exclusive upper bound of values stored in `n` bytes.
pub open spec fn pow256(n: nat) -> nat
    decreases n,
{
    if n == 0 {
        1
    } else {
        256 * pow256((n - 1) as nat)
    }
}

pub proof fn lemma_le_val_bound(s: Seq<u8>)
    ensures
        le_val(s) < pow256(s.len()),
    decreases s.len(),
{
    if s.len() == 0 {
    } else {
        let t = s.subrange(1, s.len() as int);
        lemma_le_val_bound(t);
        assert(le_val(t) < pow256(t.len()));
        assert(le_val(t) + 1 <= pow256(t.len()));
        assert(256 * le_val(t) + 256 <= 256 * pow256(t.len())) by (nonlinear_arith)
            requires
                le_val(t) + 1 <= pow256(t.len()),
        ;
        assert(pow256(s.len()) == 256 * pow256(t.len()));
    }
}

pub proof fn lemma_be_val_bound(s: Seq<u8>)
    ensures
        be_val(s) < pow256(s.len()),
    decreases s.len(),
{
    if s.len() == 0 {
    } else {
        let t = s.subrange(0, s.len() - 1);
        lemma_be_val_bound(t);
        assert(256 * be_val(t) + 256 <= 256 * pow256(t.len())) by (nonlinear_arith)
            requires
                be_val(t) + 1 <= pow256(t.len()),
        ;
        assert(pow256(s.len()) == 256 * pow256(t.len()));
    }
}

pub proof fn lemma_field_val_bound(enc: u8, s: Seq<u8>)
    ensures
        field_val(enc, s) < pow256(s.len()),
{
    lemma_le_val_bound(s);
    lemma_be_val_bound(s);
}

/// The bounds that matter for the three field widths the format uses.
pub proof fn lemma_field_fits(enc: u8, s: Seq<u8>)
    ensures
        s.len() == 2 ==> field_val(enc, s) < 0x1_0000,
        s.len() == 4 ==> field_val(enc, s) < 0x1_0000_0000,
        s.len() == 8 ==> field_val(enc, s) < 0x1_0000_0000_0000_0000,
{
    lemma_field_val_bound(enc, s);
    reveal_with_fuel(pow256, 9);
    assert(pow256(2) == 0x1_0000);
    assert(pow256(4) == 0x1_0000_0000);
    assert(pow256(8) == 0x1_0000_0000_0000_0000);
}

} // verus!

use crate::types::FileHeader;

verus! {

/// The ghost image of a decoded section header: the resolved name and the
/// widened metadata fields.
#[verifier::ext_equal]
pub struct ShModel {
    pub name: Seq<char>,
    pub shtype: u32,
    pub flags: u64,
    pub addr: u64,
    pub offset: u64,
    pub size: u64,
    pub link: u32,
    pub info: u32,
    pub addralign: u64,
    pub entsize: u64,
}

/// The ghost image of a decoded section: its header and its raw payload.
#[verifier::ext_equal]
pub struct SecModel {
    pub hdr: ShModel,
    pub data: Seq<u8>,
}

/// The ghost image of a whole decoded file.
#[verifier::ext_equal]
pub struct FileModel {
    pub hdr: FileHeader,
    pub sections: Seq<SecModel>,
}

/// The first four bytes are the magic sequence 0x7f 'E' 'L' 'F'.
pub open spec fn magic_ok(b: Seq<u8>) -> bool {
    b.len() >= 4 && b[0] == 0x7f && b[1] == 0x45 && b[2] == 0x4c && b[3] == 0x46
}

pub open spec fn spec_class(b: Seq<u8>) -> u8 {
    b[4]
}

pub open spec fn spec_encoding(b: Seq<u8>) -> u8 {
    b[5]
}

/// Width in bytes of the three class-dependent file-header fields.
pub open spec fn word_len(class: u8) -> int {
    if class == ELFCLASS32 {
        4
    } else {
        8
    }
}

/// Total length of the identification block plus the fixed file header.
pub open spec fn ehdr_len(class: u8) -> int {
    40 + 3 * word_len(class)
}

pub open spec fn spec_elf_type(b: Seq<u8>) -> nat {
    field_val(spec_encoding(b), b.subrange(16, 18))
}

pub open spec fn spec_machine(b: Seq<u8>) -> nat {
    field_val(spec_encoding(b), b.subrange(18, 20))
}

pub open spec fn spec_version(b: Seq<u8>) -> nat {
    field_val(spec_encoding(b), b.subrange(20, 24))
}

/// Entry point: 32 or 64 bits wide by class, zero-extended to 64 bits.
pub open spec fn spec_entry(b: Seq<u8>) -> nat {
    field_val(spec_encoding(b), b.subrange(24, 24 + word_len(spec_class(b))))
}

/// File offset of the section-header table.
pub open spec fn spec_shoff(b: Seq<u8>) -> nat {
    let w = word_len(spec_class(b));
    field_val(spec_encoding(b), b.subrange(24 + 2 * w, 24 + 3 * w))
}

/// Declared number of section-header records.
pub open spec fn spec_shnum(b: Seq<u8>) -> nat {
    let w = word_len(spec_class(b));
    field_val(spec_encoding(b), b.subrange(36 + 3 * w, 38 + 3 * w))
}

/// Index of the section whose payload is the string table for section names.
pub open spec fn spec_shstrndx(b: Seq<u8>) -> nat {
    let w = word_len(spec_class(b));
    field_val(spec_encoding(b), b.subrange(38 + 3 * w, 40 + 3 * w))
}

/// The file header that the bytes declare, once the identification block has
/// been accepted.
pub open spec fn spec_file_header(b: Seq<u8>) -> FileHeader {
    FileHeader {
        class: spec_class(b),
        data: spec_encoding(b),
        version: spec_version(b) as u32,
        os_abi: b[7],
        abi_version: b[8],
        elf_type: spec_elf_type(b) as u16,
        machine: spec_machine(b) as u16,
        entrypoint: spec_entry(b) as u64,
    }
}

/// Length in bytes of one section-header record.
pub open spec fn sh_entry_len(class: u8) -> int {
    if class == ELFCLASS32 {
        40
    } else {
        64
    }
}

/// File offset of section-header record `i`.
pub open spec fn spec_sh_base(b: Seq<u8>, i: int) -> int {
    spec_shoff(b) + i * sh_entry_len(spec_class(b))
}

/// The raw name offset of record `i`: an index into the string table, not yet
/// a name.
pub open spec fn spec_name_off(b: Seq<u8>, i: int) -> nat {
    let base = spec_sh_base(b, i);
    field_val(spec_encoding(b), b.subrange(base, base + 4))
}

/// Section-header record `i` as declared by the bytes, name not yet resolved.
/// The 32-bit class packs flags, addresses, sizes and alignments into 32-bit
/// words, which widen by zero extension; link and info are 32 bits in both
/// classes.
pub open spec fn spec_sh_at(b: Seq<u8>, i: int) -> ShModel {
    let enc = spec_encoding(b);
    let base = spec_sh_base(b, i);
    if spec_class(b) == ELFCLASS32 {
        ShModel {
            name: Seq::empty(),
            shtype: field_val(enc, b.subrange(base + 4, base + 8)) as u32,
            flags: field_val(enc, b.subrange(base + 8, base + 12)) as u64,
            addr: field_val(enc, b.subrange(base + 12, base + 16)) as u64,
            offset: field_val(enc, b.subrange(base + 16, base + 20)) as u64,
            size: field_val(enc, b.subrange(base + 20, base + 24)) as u64,
            link: field_val(enc, b.subrange(base + 24, base + 28)) as u32,
            info: field_val(enc, b.subrange(base + 28, base + 32)) as u32,
            addralign: field_val(enc, b.subrange(base + 32, base + 36)) as u64,
            entsize: field_val(enc, b.subrange(base + 36, base + 40)) as u64,
        }
    } else {
        ShModel {
            name: Seq::empty(),
            shtype: field_val(enc, b.subrange(base + 4, base + 8)) as u32,
            flags: field_val(enc, b.subrange(base + 8, base + 16)) as u64,
            addr: field_val(enc, b.subrange(base + 16, base + 24)) as u64,
            offset: field_val(enc, b.subrange(base + 24, base + 32)) as u64,
            size: field_val(enc, b.subrange(base + 32, base + 40)) as u64,
            link: field_val(enc, b.subrange(base + 40, base + 44)) as u32,
            info: field_val(enc, b.subrange(base + 44, base + 48)) as u32,
            addralign: field_val(enc, b.subrange(base + 48, base + 56)) as u64,
            entsize: field_val(enc, b.subrange(base + 56, base + 64)) as u64,
        }
    }
}

/// A section's payload can be carved out of the input: either it is empty, or
/// it ends within the input.
pub open spec fn spec_sec_fits(b: Seq<u8>, i: int) -> bool {
    let h = spec_sh_at(b, i);
    h.size == 0 || h.offset + h.size <= b.len()
}

/// The payload of section `i`: exactly `size` bytes from `offset`, and empty
/// when the declared size is zero.
pub open spec fn spec_sec_data(b: Seq<u8>, i: int) -> Seq<u8> {
    let h = spec_sh_at(b, i);
    if h.size == 0 {
        Seq::empty()
    } else {
        b.subrange(h.offset as int, h.offset + h.size)
    }
}

/// The payload of the section that the string-table index names.
pub open spec fn spec_strtab(b: Seq<u8>) -> Seq<u8> {
    spec_sec_data(b, spec_shstrndx(b) as int)
}

/// The name stored at `start` in a string table: the bytes up to but not
/// including the first zero byte, or up to the end of the table when no zero
/// byte follows, each byte taken as one character.
pub open spec fn spec_name_chars(data: Seq<u8>, start: int) -> Seq<char>
    decreases data.len() - start,
{
    if start < 0 || start >= data.len() {
        Seq::empty()
    } else if data[start] == 0 {
        Seq::empty()
    } else {
        seq![data[start] as char] + spec_name_chars(data, start + 1)
    }
}

/// Section `i` fully decoded: record fields, resolved name, payload.
pub open spec fn spec_section(b: Seq<u8>, i: int) -> SecModel {
    let h = spec_sh_at(b, i);
    SecModel {
        hdr: ShModel {
            name: spec_name_chars(spec_strtab(b), spec_name_off(b, i) as int),
            ..h
        },
        data: spec_sec_data(b, i),
    }
}

/// All declared sections, in record order, before duplicate names collapse.
pub open spec fn spec_raw_sections(b: Seq<u8>) -> Seq<SecModel> {
    Seq::new(spec_shnum(b), |i: int| spec_section(b, i))
}

pub open spec fn has_name(s: Seq<SecModel>, n: Seq<char>) -> bool {
    exists|j: int| 0 <= j < s.len() && s[j].hdr.name == n
}

pub open spec fn name_index(s: Seq<SecModel>, n: Seq<char>) -> int {
    choose|j: int| 0 <= j < s.len() && s[j].hdr.name == n
}

/// Keying a collection by name: a section whose name is already present
/// supersedes the earlier one; a new name is appended.
pub open spec fn insert_named(s: Seq<SecModel>, x: SecModel) -> Seq<SecModel> {
    if has_name(s, x.hdr.name) {
        s.update(name_index(s, x.hdr.name), x)
    } else {
        s.push(x)
    }
}

/// The name-keyed collection built from the sections in record order: when two
/// sections resolve to the same name, the later one supersedes the earlier.
pub open spec fn collapse_names(s: Seq<SecModel>) -> Seq<SecModel>
    decreases s.len(),
{
    if s.len() == 0 {
        Seq::empty()
    } else {
        insert_named(collapse_names(s.drop_last()), s.last())
    }
}

pub open spec fn distinct_names(s: Seq<SecModel>) -> bool {
    forall|i: int, j: int| 0 <= i < j < s.len() ==> s[i].hdr.name != s[j].hdr.name
}

/// The whole section-header table lies within the input.
pub open spec fn table_fits(b: Seq<u8>) -> bool {
    spec_shnum(b) == 0 || spec_shoff(b) + spec_shnum(b) * sh_entry_len(spec_class(b)) <= b.len()
}

pub open spec fn all_sections_fit(b: Seq<u8>) -> bool {
    forall|i: int| 0 <= i < spec_shnum(b) ==> spec_sec_fits(b, i)
}

/// The string-table index names an existing section, which is vacuous for a
/// file without sections.
pub open spec fn strndx_ok(b: Seq<u8>) -> bool {
    spec_shnum(b) == 0 || spec_shstrndx(b) < spec_shnum(b)
}

/// The reference decoder: what any byte sequence decodes to, or the error that
/// stops it, in the order the decode discovers them.
pub open spec fn spec_parse(b: Seq<u8>) -> Result<FileModel, ElfError> {
    if b.len() < 16 {
        Err(ElfError::UnexpectedEof)
    } else if !magic_ok(b) {
        Err(ElfError::InvalidMagic)
    } else if !valid_encoding(spec_encoding(b)) {
        Err(ElfError::InvalidEncoding)
    } else if b.len() < 24 {
        Err(ElfError::UnexpectedEof)
    } else if !valid_class(spec_class(b)) {
        Err(ElfError::InvalidClass)
    } else if b.len() < ehdr_len(spec_class(b)) {
        Err(ElfError::UnexpectedEof)
    } else if !table_fits(b) {
        Err(ElfError::UnexpectedEof)
    } else if !all_sections_fit(b) {
        Err(ElfError::UnexpectedEof)
    } else if !strndx_ok(b) {
        Err(ElfError::StringTableOutOfRange)
    } else {
        Ok(FileModel { hdr: spec_file_header(b), sections: collapse_names(spec_raw_sections(b)) })
    }
}

} // verus!

verus! {

/// The names of a section sequence, index-aligned.
pub open spec fn names_seq(s: Seq<SecModel>) -> Seq<Seq<char>> {
    Seq::new(s.len(), |i: int| s[i].hdr.name)
}

/// The set of distinct resolved names of a section sequence.
pub open spec fn name_set(s: Seq<SecModel>) -> Set<Seq<char>> {
    names_seq(s).to_set()
}

/// When the names already present are pairwise distinct, inserting keyed by
/// name keeps them distinct, and the names present afterwards are exactly the
/// old ones plus the inserted one.
pub proof fn lemma_insert_named(s: Seq<SecModel>, x: SecModel)
    requires
        distinct_names(s),
    ensures
        distinct_names(insert_named(s, x)),
        forall|n: Seq<char>|
            has_name(insert_named(s, x), n) <==> (has_name(s, n) || n == x.hdr.name),
        forall|k: int|
            0 <= k < insert_named(s, x).len() ==> (insert_named(s, x)[k] == x || exists|i: int|
                0 <= i < s.len() && insert_named(s, x)[k] == s[i]),
{
    let r = insert_named(s, x);
    if has_name(s, x.hdr.name) {
        let j = name_index(s, x.hdr.name);
        assert(0 <= j < s.len() && s[j].hdr.name == x.hdr.name);
        assert forall|n: Seq<char>|
            has_name(r, n) <==> (has_name(s, n) || n == x.hdr.name) by {
            if has_name(s, n) {
                let i = choose|i: int| 0 <= i < s.len() && s[i].hdr.name == n;
                if i == j {
                    assert(r[j].hdr.name == n);
                } else {
                    assert(r[i].hdr.name == n);
                }
            }
            if n == x.hdr.name {
                assert(r[j].hdr.name == n);
            }
            if has_name(r, n) {
                let i = choose|i: int| 0 <= i < r.len() && r[i].hdr.name == n;
                if i == j {
                    assert(n == x.hdr.name);
                } else {
                    assert(s[i].hdr.name == n);
                }
            }
        }
        assert forall|k: int|
            0 <= k < r.len() implies (r[k] == x || exists|i: int|
            0 <= i < s.len() && r[k] == s[i]) by {
            if k != j {
                assert(r[k] == s[k]);
            }
        }
    } else {
        assert forall|n: Seq<char>|
            has_name(r, n) <==> (has_name(s, n) || n == x.hdr.name) by {
            if has_name(s, n) {
                let i = choose|i: int| 0 <= i < s.len() && s[i].hdr.name == n;
                assert(r[i].hdr.name == n);
            }
            if n == x.hdr.name {
                assert(r[s.len() as int].hdr.name == n);
            }
            if has_name(r, n) {
                let i = choose|i: int| 0 <= i < r.len() && r[i].hdr.name == n;
                if i < s.len() {
                    assert(s[i].hdr.name == n);
                }
            }
        }
        assert(forall|i: int| 0 <= i < s.len() ==> r[i] == s[i]);
        assert forall|i: int, k: int| 0 <= i < k < r.len() implies r[i].hdr.name
            != r[k].hdr.name by {
            if k == s.len() as int {
                assert(!has_name(s, x.hdr.name));
                assert(r[i] == s[i]);
            }
        }
        assert forall|k: int|
            0 <= k < r.len() implies (r[k] == x || exists|i: int|
            0 <= i < s.len() && r[k] == s[i]) by {
            if k < s.len() {
                assert(r[k] == s[k]);
            }
        }
    }
}

/// The name-keyed collection holds pairwise distinct names, its names are
/// exactly the names resolved among the records, and each of its entries is
/// one of the records.
pub proof fn lemma_collapse_names(s: Seq<SecModel>)
    ensures
        distinct_names(collapse_names(s)),
        forall|n: Seq<char>| has_name(collapse_names(s), n) <==> has_name(s, n),
        forall|k: int| #![trigger collapse_names(s)[k]]
            0 <= k < collapse_names(s).len() ==> exists|i: int|
                0 <= i < s.len() && collapse_names(s)[k] == s[i],
    decreases s.len(),
{
    if s.len() == 0 {
    } else {
        let dl = s.drop_last();
        let x = s.last();
        let r0 = collapse_names(dl);
        lemma_collapse_names(dl);
        lemma_insert_named(r0, x);
        let r = collapse_names(s);
        assert(r == insert_named(r0, x));
        assert forall|n: Seq<char>| has_name(r, n) <==> has_name(s, n) by {
            assert(has_name(r, n) <==> (has_name(dl, n) || n == x.hdr.name));
            if has_name(dl, n) {
                let i = choose|i: int| 0 <= i < dl.len() && dl[i].hdr.name == n;
                assert(s[i].hdr.name == n);
            }
            if n == x.hdr.name {
                assert(s[s.len() - 1].hdr.name == n);
            }
            if has_name(s, n) {
                let i = choose|i: int| 0 <= i < s.len() && s[i].hdr.name == n;
                if i < s.len() - 1 {
                    assert(dl[i].hdr.name == n);
                } else {
                    assert(n == x.hdr.name);
                }
            }
        }
        assert forall|k: int| #![trigger r[k]]
            0 <= k < r.len() implies exists|i: int| 0 <= i < s.len() && r[k] == s[i] by {
            if r[k] == x {
                assert(r[k] == s[s.len() - 1]);
            } else {
                let i0 = choose|i0: int| 0 <= i0 < r0.len() && r[k] == r0[i0];
                assert(exists|i: int| 0 <= i < dl.len() && r0[i0] == dl[i]);
                let i = choose|i: int| 0 <= i < dl.len() && r0[i0] == dl[i];
                assert(r[k] == s[i]);
            }
        }
    }
}

/// Appending one record and collapsing is collapsing then inserting keyed by
/// name.
pub proof fn lemma_collapse_push(s: Seq<SecModel>, x: SecModel)
    ensures
        collapse_names(s.push(x)) == insert_named(collapse_names(s), x),
{
    assert(s.push(x).drop_last() =~= s);
    assert(s.push(x).last() == x);
}

/// In a sequence with pairwise distinct names, the index a name selects is
/// the only index carrying that name.
pub proof fn lemma_name_index_unique(s: Seq<SecModel>, j0: int)
    requires
        distinct_names(s),
        0 <= j0 < s.len(),
    ensures
        name_index(s, s[j0].hdr.name) == j0,
{
    let n = s[j0].hdr.name;
    assert(has_name(s, n));
    let j = name_index(s, n);
    assert(0 <= j < s.len() && s[j].hdr.name == n);
    if j < j0 {
        assert(s[j].hdr.name != s[j0].hdr.name);
    } else if j0 < j {
        assert(s[j0].hdr.name != s[j].hdr.name);
    }
}

/// The size of the name-keyed collection is the number of distinct resolved
/// names among the records.
pub proof fn lemma_collapse_count(s: Seq<SecModel>)
    ensures
        collapse_names(s).len() == name_set(s).len(),
{
    let r = collapse_names(s);
    lemma_collapse_names(s);
    assert(names_seq(r).no_duplicates()) by {
        assert forall|i: int, j: int|
            0 <= i < names_seq(r).len() && 0 <= j < names_seq(r).len() && i != j
            implies names_seq(r)[i] != names_seq(r)[j] by {
            if i < j {
                assert(r[i].hdr.name != r[j].hdr.name);
            } else {
                assert(r[j].hdr.name != r[i].hdr.name);
            }
        }
    }
    names_seq(r).unique_seq_to_set();
    assert(names_seq(r).to_set() =~= names_seq(s).to_set()) by {
        assert forall|n: Seq<char>|
            names_seq(r).to_set().contains(n) <==> names_seq(s).to_set().contains(n) by {
            assert(names_seq(r).contains(n) <==> has_name(r, n)) by {
                if names_seq(r).contains(n) {
                    let i = choose|i: int| 0 <= i < names_seq(r).len() && names_seq(r)[i] == n;
                    assert(r[i].hdr.name == n);
                }
                if has_name(r, n) {
                    let i = choose|i: int| 0 <= i < r.len() && r[i].hdr.name == n;
                    assert(names_seq(r)[i] == n);
                }
            }
            assert(names_seq(s).contains(n) <==> has_name(s, n)) by {
                if names_seq(s).contains(n) {
                    let i = choose|i: int| 0 <= i < names_seq(s).len() && names_seq(s)[i] == n;
                    assert(s[i].hdr.name == n);
                }
                if has_name(s, n) {
                    let i = choose|i: int| 0 <= i < s.len() && s[i].hdr.name == n;
                    assert(names_seq(s)[i] == n);
                }
            }
        }
    }
}

} // verus!
