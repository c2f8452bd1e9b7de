//! The decoder's general guarantees, each stated over the reference model and
//! proved once for every input.

use vstd::prelude::*;
use crate::model::{
    all_sections_fit, be_val, collapse_names, field_val, le_val, lemma_collapse_count,
    lemma_collapse_names, lemma_field_fits, name_set, spec_class, spec_entry, spec_file_header,
    spec_parse, spec_raw_sections, spec_sec_data, spec_sec_fits, spec_section, spec_sh_at,
    spec_shnum, table_fits, word_len, ehdr_len, ElfError, FileModel, ELFCLASS32,
};
use crate::model::{has_name, insert_named, lemma_insert_named, lemma_name_index_unique,
    name_index, SecModel};

verus! {

/// Decoding then querying the file header returns exactly the values encoded
/// in the input: the class, encoding, OS/ABI and ABI-version bytes of the
/// identification block, and the type, machine, version and entry-point
/// fields read from their fixed byte ranges under the declared byte order.
pub proof fn lemma_header_matches_bytes(b: Seq<u8>, m: FileModel)
    requires
        spec_parse(b) == Ok::<FileModel, ElfError>(m),
    ensures
        m.hdr.class == b[4],
        m.hdr.data == b[5],
        m.hdr.os_abi == b[7],
        m.hdr.abi_version == b[8],
        m.hdr.elf_type as nat == field_val(b[5], b.subrange(16, 18)),
        m.hdr.machine as nat == field_val(b[5], b.subrange(18, 20)),
        m.hdr.version as nat == field_val(b[5], b.subrange(20, 24)),
        m.hdr.entrypoint as nat == field_val(b[5], b.subrange(24, 24 + word_len(b[4]))),
{
    lemma_field_fits(b[5], b.subrange(16, 18));
    lemma_field_fits(b[5], b.subrange(18, 20));
    lemma_field_fits(b[5], b.subrange(20, 24));
    lemma_field_fits(b[5], b.subrange(24, 24 + word_len(b[4])));
}

/// For any number of declared section records, the decoded collection holds
/// exactly one section per distinct resolved name: records whose names
/// collide collapse to the later record.
pub proof fn lemma_section_collection_size(b: Seq<u8>, m: FileModel)
    requires
        spec_parse(b) == Ok::<FileModel, ElfError>(m),
    ensures
        m.sections.len() == name_set(spec_raw_sections(b)).len(),
{
    lemma_collapse_count(spec_raw_sections(b));
}

/// Every decoded section's payload length equals its header's declared size
/// field.
pub proof fn lemma_payload_length(b: Seq<u8>, m: FileModel)
    requires
        spec_parse(b) == Ok::<FileModel, ElfError>(m),
    ensures
        forall|j: int| #![trigger m.sections[j]]
            0 <= j < m.sections.len() ==> m.sections[j].data.len() == m.sections[j].hdr.size,
{
    let raw = spec_raw_sections(b);
    assert(all_sections_fit(b));
    assert forall|i: int| #![trigger raw[i]]
        0 <= i < raw.len() implies raw[i].data.len() == raw[i].hdr.size by {
        assert(spec_sec_fits(b, i));
        assert(raw[i] == spec_section(b, i));
    }
    lemma_collapse_names(raw);
    assert forall|j: int| #![trigger m.sections[j]]
        0 <= j < m.sections.len() implies m.sections[j].data.len() == m.sections[j].hdr.size by {
        assert(m.sections == collapse_names(raw));
        let i = choose|i: int| 0 <= i < raw.len() && m.sections[j] == raw[i];
        assert(raw[i].data.len() == raw[i].hdr.size);
    }
}

/// A declared section size of zero never makes the decode fail, whatever the
/// declared offset, and yields an empty payload.
pub proof fn lemma_zero_size_payload(b: Seq<u8>, i: int)
    requires
        spec_sh_at(b, i).size == 0,
    ensures
        spec_sec_fits(b, i),
        spec_sec_data(b, i) == Seq::<u8>::empty(),
{
}

/// A well-formed header with a declared section count of zero decodes to a
/// valid file with a populated header and no sections, whatever else the
/// input holds.
pub proof fn lemma_no_sections(b: Seq<u8>)
    requires
        spec_parse(b) is Ok,
        spec_shnum(b) == 0,
    ensures
        spec_parse(b) == Ok::<FileModel, ElfError>(
            FileModel { hdr: spec_file_header(b), sections: Seq::empty() },
        ),
{
    assert(spec_raw_sections(b).len() == 0);
    assert(spec_raw_sections(b) =~= Seq::<crate::model::SecModel>::empty());
}

/// Under the 32-bit class, with the fixed header and the section-header table
/// inside the input, the entry point and every widened section field are the
/// zero-extension of the 32-bit values read: each equals the 32-bit field's
/// value exactly, with no sign extension and no truncation.
pub proof fn lemma_class32_zero_extension(b: Seq<u8>)
    requires
        spec_class(b) == ELFCLASS32,
        b.len() >= ehdr_len(ELFCLASS32),
        table_fits(b),
    ensures
        spec_entry(b) < 0x1_0000_0000,
        spec_file_header(b).entrypoint as nat == spec_entry(b),
        forall|i: int| #![trigger spec_sh_at(b, i)]
            0 <= i < spec_shnum(b) ==> {
                &&& spec_sh_at(b, i).flags < 0x1_0000_0000
                &&& spec_sh_at(b, i).addr < 0x1_0000_0000
                &&& spec_sh_at(b, i).offset < 0x1_0000_0000
                &&& spec_sh_at(b, i).size < 0x1_0000_0000
                &&& spec_sh_at(b, i).addralign < 0x1_0000_0000
                &&& spec_sh_at(b, i).entsize < 0x1_0000_0000
            },
{
    assert(word_len(spec_class(b)) == 4);
    assert(spec_entry(b) == field_val(b[5], b.subrange(24, 28)));
    lemma_field_fits(b[5], b.subrange(24, 28));
    assert forall|i: int| #![trigger spec_sh_at(b, i)]
        0 <= i < spec_shnum(b) implies {
            &&& spec_sh_at(b, i).flags < 0x1_0000_0000
            &&& spec_sh_at(b, i).addr < 0x1_0000_0000
            &&& spec_sh_at(b, i).offset < 0x1_0000_0000
            &&& spec_sh_at(b, i).size < 0x1_0000_0000
            &&& spec_sh_at(b, i).addralign < 0x1_0000_0000
            &&& spec_sh_at(b, i).entsize < 0x1_0000_0000
        } by {
        let base = crate::model::spec_sh_base(b, i);
        let enc = b[5];
        assert((i + 1) * 40 <= spec_shnum(b) * 40) by (nonlinear_arith)
            requires
                i < spec_shnum(b),
        ;
        assert(base + 40 <= b.len());
        assert(spec_sh_at(b, i).flags == field_val(enc, b.subrange(base + 8, base + 12)) as u64);
        lemma_field_fits(enc, b.subrange(base + 8, base + 12));
        lemma_field_fits(enc, b.subrange(base + 12, base + 16));
        lemma_field_fits(enc, b.subrange(base + 16, base + 20));
        lemma_field_fits(enc, b.subrange(base + 20, base + 24));
        lemma_field_fits(enc, b.subrange(base + 32, base + 36));
        lemma_field_fits(enc, b.subrange(base + 36, base + 40));
    }
}

/// Reading a byte sequence big-endian is reading its reversal little-endian.
pub proof fn lemma_be_is_le_reverse(s: Seq<u8>)
    ensures
        be_val(s) == le_val(s.reverse()),
    decreases s.len(),
{
    if s.len() == 0 {
        assert(s.reverse() =~= Seq::<u8>::empty());
    } else {
        let dl = s.subrange(0, s.len() - 1);
        lemma_be_is_le_reverse(dl);
        let r = s.reverse();
        assert(r[0] == s[s.len() - 1]);
        assert(r.subrange(1, r.len() as int) =~= dl.reverse());
    }
}

/// A fixed number of bytes stores each value one way: two byte sequences of
/// equal length with the same little-endian value are the same bytes.
pub proof fn lemma_le_val_injective(s: Seq<u8>, t: Seq<u8>)
    requires
        s.len() == t.len(),
        le_val(s) == le_val(t),
    ensures
        s == t,
    decreases s.len(),
{
    if s.len() == 0 {
        assert(s =~= t);
    } else {
        let st = s.subrange(1, s.len() as int);
        let tt = t.subrange(1, t.len() as int);
        assert(le_val(s) == s[0] as nat + 256 * le_val(st));
        assert(le_val(t) == t[0] as nat + 256 * le_val(tt));
        assert(s[0] == t[0] && le_val(st) == le_val(tt)) by {
            if le_val(st) < le_val(tt) {
                assert(s[0] as nat + 256 * le_val(st) < 256 + 256 * le_val(st));
                assert(256 + 256 * le_val(st) <= 256 * le_val(tt));
            }
            if le_val(tt) < le_val(st) {
                assert(t[0] as nat + 256 * le_val(tt) < 256 + 256 * le_val(tt));
                assert(256 + 256 * le_val(tt) <= 256 * le_val(st));
            }
        }
        lemma_le_val_injective(st, tt);
        assert forall|i: int| 0 <= i < s.len() implies s[i] == t[i] by {
            if i > 0 {
                assert(st[i - 1] == s[i]);
                assert(tt[i - 1] == t[i]);
            }
        }
        assert(s =~= t);
    }
}

/// Byte order matters exactly when the bytes are order-sensitive: the two
/// byte orders give a field's bytes the same value when and only when the
/// bytes read the same forwards and backwards.
pub proof fn lemma_endian_sensitive(s: Seq<u8>)
    ensures
        (le_val(s) == be_val(s)) <==> (s == s.reverse()),
{
    lemma_be_is_le_reverse(s);
    if le_val(s) == be_val(s) {
        lemma_le_val_injective(s, s.reverse());
    }
}

} // verus!

verus! {

/// The documented ambiguity resolved one fixed way: when several records
/// resolve to one name, the name-keyed collection carries exactly the last of
/// them in record order.
pub proof fn lemma_last_record_wins(s: Seq<SecModel>, j: int)
    requires
        0 <= j < s.len(),
        forall|k: int| j < k < s.len() ==> s[k].hdr.name != s[j].hdr.name,
    ensures
        has_name(collapse_names(s), s[j].hdr.name),
        collapse_names(s)[name_index(collapse_names(s), s[j].hdr.name)] == s[j],
    decreases s.len(),
{
    let n = s[j].hdr.name;
    let dl = s.drop_last();
    let x = s.last();
    let r0 = collapse_names(dl);
    let r = collapse_names(s);
    lemma_collapse_names(dl);
    lemma_insert_named(r0, x);
    assert(r == insert_named(r0, x));
    if j == s.len() - 1 {
        // the last record itself: it lands at its own name's slot
        if has_name(r0, n) {
            let jj = name_index(r0, n);
            assert(r == r0.update(jj, x));
            assert(r[jj] == x);
            lemma_name_index_unique(r, jj);
        } else {
            assert(r == r0.push(x));
            assert(r[r0.len() as int] == x);
            lemma_name_index_unique(r, r0.len() as int);
        }
    } else {
        assert(x.hdr.name != n);
        lemma_last_record_wins(dl, j);
        let ii = name_index(r0, n);
        assert(0 <= ii < r0.len() && r0[ii].hdr.name == n && r0[ii] == s[j]);
        if has_name(r0, x.hdr.name) {
            let jj = name_index(r0, x.hdr.name);
            assert(r0[jj].hdr.name == x.hdr.name);
            assert(ii != jj);
            assert(r == r0.update(jj, x));
            assert(r[ii] == r0[ii]);
            lemma_name_index_unique(r, ii);
        } else {
            assert(r == r0.push(x));
            assert(r[ii] == r0[ii]);
            lemma_name_index_unique(r, ii);
        }
    }
}

} // verus!
