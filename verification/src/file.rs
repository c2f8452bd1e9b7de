//! The decoded file: one `parse` pass takes the byte image of an object file
//! to a `File` — a file header plus a name-keyed collection of sections — or
//! to the error that stops the decode. `parse` is proved to return exactly
//! what the reference decoder `spec_parse` gives to the same bytes.

use vstd::prelude::*;
use vstd::slice::{slice_subrange, slice_to_vec};
use crate::model::{
    all_sections_fit, collapse_names, distinct_names, has_name, insert_named, sh_entry_len,
    spec_class, spec_encoding, spec_file_header, spec_name_off, spec_parse, spec_raw_sections,
    spec_sec_data, spec_sec_fits, spec_sh_at, spec_sh_base, spec_shnum, spec_shoff, spec_shstrndx,
    spec_strtab, strndx_ok, table_fits, valid_class, valid_encoding, ElfError, FileModel,
    SecModel, ELFCLASS32, ELFCLASS64, ELFDATA2LSB, ELFDATA2MSB,
};
use crate::model::{lemma_collapse_names, lemma_collapse_push, lemma_insert_named,
    lemma_name_index_unique};
use crate::reader::{read_u16_at, read_u32_at, read_u64_at};
use crate::strtab::{get_elf_string, str_eq};
use crate::types::{FileHeader, SectionHeader};

verus! {

/// A section header together with the section's raw payload, copied out of the
/// input bytes.
pub struct Section {
    hdr: SectionHeader,
    data: Vec<u8>,
}

impl View for Section {
    type V = SecModel;

    closed spec fn view(&self) -> SecModel {
        SecModel { hdr: self.hdr@, data: self.data@ }
    }
}

impl Section {
    /// The section's header, name resolved.
    pub fn header(&self) -> (h: &SectionHeader)
        ensures
            h@ == self@.hdr,
    {
        &self.hdr
    }

    /// The section's raw payload; its length always equals the header's
    /// declared size.
    pub fn data(&self) -> (d: &Vec<u8>)
        ensures
            d@ == self@.data,
    {
        &self.data
    }
}

/// The views of the sections held in a vector, index-aligned.
spec fn views_of(s: Seq<Section>) -> Seq<SecModel> {
    Seq::new(s.len(), |i: int| s[i]@)
}

/// A decoded object file: the file header and the name-keyed section
/// collection, a read-only snapshot of the decoded input.
pub struct File {
    hdr: FileHeader,
    sections: Vec<Section>,
}

impl View for File {
    type V = FileModel;

    closed spec fn view(&self) -> FileModel {
        FileModel { hdr: self.hdr, sections: views_of(self.sections@) }
    }
}

/// Replaces the entry carrying the same name, or appends when the name is new.
#[verifier::loop_isolation(false)]
fn insert_section(sections: &mut Vec<Section>, sec: Section)
    requires
        distinct_names(views_of(old(sections)@)),
    ensures
        views_of(final(sections)@) == insert_named(views_of(old(sections)@), sec@),
{
    let ghost s0 = views_of(sections@);
    let n = sections.len();
    let mut j: usize = 0;
    while j < n
        invariant
            j <= n,
            sections@ == old(sections)@,
            n == sections@.len(),
            forall|k: int| 0 <= k < j ==> s0[k].hdr.name != sec@.hdr.name,
        decreases n - j,
    {
        proof {
            assert(s0[j as int] == sections@[j as int]@);
        }
        if str_eq(sections[j].hdr.name.as_str(), sec.hdr.name.as_str()) {
            proof {
                assert(s0[j as int].hdr.name == sec@.hdr.name);
                assert(has_name(s0, sec@.hdr.name));
                lemma_name_index_unique(s0, j as int);
            }
            let _superseded = sections.remove(j);
            sections.insert(j, sec);
            proof {
                assert(views_of(sections@) =~= s0.update(j as int, sec@));
            }
            return;
        }
        j = j + 1;
    }
    proof {
        assert(!has_name(s0, sec@.hdr.name));
    }
    sections.push(sec);
    proof {
        assert(views_of(sections@) =~= s0.push(sec@));
    }
}

/// One section-header record, read at `base` with the class-dependent field
/// layout; the raw name offset is returned beside the record.
fn parse_record(bytes: &[u8], enc: u8, class: u8, base: usize, idx: Ghost<int>) -> (r: (
    SectionHeader,
    u32,
))
    requires
        valid_encoding(enc),
        valid_class(class),
        enc == spec_encoding(bytes@),
        class == spec_class(bytes@),
        base as int == spec_sh_base(bytes@, idx@),
        base + sh_entry_len(class) <= bytes@.len(),
    ensures
        r.0@ == spec_sh_at(bytes@, idx@),
        r.1 as nat == spec_name_off(bytes@, idx@),
{
    // the exec length call puts the slice's length, and with it `base + w`,
    // within usize bounds
    let _n = bytes.len();
    let name_off = read_u32_at(enc, bytes, base);
    let shtype = read_u32_at(enc, bytes, base + 4);
    let hdr = if class == ELFCLASS32 {
        SectionHeader {
            name: String::new(),
            shtype,
            flags: read_u32_at(enc, bytes, base + 8) as u64,
            addr: read_u32_at(enc, bytes, base + 12) as u64,
            offset: read_u32_at(enc, bytes, base + 16) as u64,
            size: read_u32_at(enc, bytes, base + 20) as u64,
            link: read_u32_at(enc, bytes, base + 24),
            info: read_u32_at(enc, bytes, base + 28),
            addralign: read_u32_at(enc, bytes, base + 32) as u64,
            entsize: read_u32_at(enc, bytes, base + 36) as u64,
        }
    } else {
        SectionHeader {
            name: String::new(),
            shtype,
            flags: read_u64_at(enc, bytes, base + 8),
            addr: read_u64_at(enc, bytes, base + 16),
            offset: read_u64_at(enc, bytes, base + 24),
            size: read_u64_at(enc, bytes, base + 32),
            link: read_u32_at(enc, bytes, base + 40),
            info: read_u32_at(enc, bytes, base + 44),
            addralign: read_u64_at(enc, bytes, base + 48),
            entsize: read_u64_at(enc, bytes, base + 56),
        }
    };
    proof {
        assert(hdr@ =~= spec_sh_at(bytes@, idx@));
    }
    (hdr, name_off)
}

impl File {
    /// Decodes a byte image of an object file. Returns the decoded file
    /// exactly as the reference decoder `spec_parse` describes it, or the
    /// error that `spec_parse` gives to these bytes: a decode is
    /// all-or-nothing, and no partially decoded file is ever produced.
    #[verifier::loop_isolation(false)]
    #[verifier::rlimit(100)]
    pub fn parse(bytes: &[u8]) -> (r: Result<File, ElfError>)
        ensures
            r is Ok <==> spec_parse(bytes@) is Ok,
            r matches Ok(f) ==> (spec_parse(bytes@) matches Ok(m) && f@ == m),
            r matches Ok(f) ==> distinct_names(f@.sections),
            r matches Err(e) ==> (spec_parse(bytes@) matches Err(e2) && e == e2),
    {
        let ghost b = bytes@;
        let n = bytes.len();
        if n < 16 {
            return Err(ElfError::UnexpectedEof);
        }
        if !(bytes[0] == 0x7f && bytes[1] == 0x45 && bytes[2] == 0x4c && bytes[3] == 0x46) {
            return Err(ElfError::InvalidMagic);
        }
        let class = bytes[4];
        let enc = bytes[5];
        let os_abi = bytes[7];
        let abi_version = bytes[8];
        if !(enc == ELFDATA2LSB || enc == ELFDATA2MSB) {
            return Err(ElfError::InvalidEncoding);
        }
        if n < 24 {
            return Err(ElfError::UnexpectedEof);
        }
        let elf_type = read_u16_at(enc, bytes, 16);
        let machine = read_u16_at(enc, bytes, 18);
        let version = read_u32_at(enc, bytes, 20);
        if !(class == ELFCLASS32 || class == ELFCLASS64) {
            return Err(ElfError::InvalidClass);
        }
        let ehdr_end: usize = if class == ELFCLASS32 {
            52
        } else {
            64
        };
        if n < ehdr_end {
            return Err(ElfError::UnexpectedEof);
        }
        let entrypoint: u64;
        let shoff: u64;
        let shnum: u16;
        let shstrndx: u16;
        if class == ELFCLASS32 {
            entrypoint = read_u32_at(enc, bytes, 24) as u64;
            shoff = read_u32_at(enc, bytes, 32) as u64;
            shnum = read_u16_at(enc, bytes, 48);
            shstrndx = read_u16_at(enc, bytes, 50);
        } else {
            entrypoint = read_u64_at(enc, bytes, 24);
            shoff = read_u64_at(enc, bytes, 40);
            shnum = read_u16_at(enc, bytes, 60);
            shstrndx = read_u16_at(enc, bytes, 62);
        }
        let hdr = FileHeader {
            class,
            data: enc,
            version,
            os_abi,
            abi_version,
            elf_type,
            machine,
            entrypoint,
        };
        proof {
            assert(hdr == spec_file_header(b));
            assert(shoff as nat == spec_shoff(b));
            assert(shnum as nat == spec_shnum(b));
            assert(shstrndx as nat == spec_shstrndx(b));
        }
        let rs: usize = if class == ELFCLASS32 {
            40
        } else {
            64
        };
        let shnum_us = shnum as usize;
        if shnum_us > 0 {
            proof {
                assert((shnum as u64) * (rs as u64) == (shnum as int) * (rs as int)
                    && (shnum as int) * (rs as int) <= 65535 * 64) by (nonlinear_arith)
                    requires
                        0 < shnum <= 65535,
                        0 < rs <= 64,
                ;
            }
            let need: u64 = (shnum as u64) * (rs as u64);
            if shoff > n as u64 || need > n as u64 - shoff {
                proof {
                    assert(!table_fits(b));
                }
                return Err(ElfError::UnexpectedEof);
            }
        }
        proof {
            assert(table_fits(b));
        }
        let shoff_us = shoff as usize;

        // Phase one: the section-header table, one fixed-layout record per
        // declared section, names left unresolved.
        let mut headers: Vec<SectionHeader> = Vec::new();
        let mut name_offs: Vec<u32> = Vec::new();
        let mut ri: usize = 0;
        while ri < shnum_us
            invariant
                ri <= shnum_us,
                headers@.len() == ri as int,
                name_offs@.len() == ri as int,
                forall|k: int| #![trigger headers@[k]]
                    0 <= k < ri ==> headers@[k]@ == spec_sh_at(b, k),
                forall|k: int| #![trigger name_offs@[k]]
                    0 <= k < ri ==> name_offs@[k] as nat == spec_name_off(b, k),
            decreases shnum_us - ri,
        {
            proof {
                assert(ri * rs + rs == (ri + 1) * rs && (ri + 1) * rs <= shnum_us * rs)
                    by (nonlinear_arith)
                    requires
                        ri < shnum_us,
                        0 < rs,
                ;
            }
            let base = shoff_us + ri * rs;
            let (sh, noff) = parse_record(bytes, enc, class, base, Ghost(ri as int));
            headers.push(sh);
            name_offs.push(noff);
            ri = ri + 1;
        }

        // Phase two: each section's payload, exactly `size` bytes from
        // `offset`; a declared size of zero yields an empty payload without
        // touching the input.
        let mut datas: Vec<Vec<u8>> = Vec::new();
        let mut di: usize = 0;
        while di < shnum_us
            invariant
                di <= shnum_us,
                datas@.len() == di as int,
                forall|k: int| #![trigger datas@[k]]
                    0 <= k < di ==> datas@[k]@ == spec_sec_data(b, k),
                forall|k: int| #![trigger spec_sec_fits(b, k)]
                    0 <= k < di ==> spec_sec_fits(b, k),
            decreases shnum_us - di,
        {
            let size = headers[di].size;
            let off = headers[di].offset;
            if size == 0 {
                datas.push(Vec::new());
            } else {
                if off > n as u64 || size > n as u64 - off {
                    proof {
                        assert(!spec_sec_fits(b, di as int));
                        assert(!all_sections_fit(b));
                    }
                    return Err(ElfError::UnexpectedEof);
                }
                let s = slice_subrange(bytes, off as usize, off as usize + size as usize);
                datas.push(slice_to_vec(s));
            }
            di = di + 1;
        }
        proof {
            assert(all_sections_fit(b));
        }

        // The string-table section must exist before any name can resolve.
        if shnum_us > 0 && shstrndx as usize >= shnum_us {
            proof {
                assert(!strndx_ok(b));
            }
            return Err(ElfError::StringTableOutOfRange);
        }
        proof {
            assert(strndx_ok(b));
        }
        let strtab: Vec<u8> = if shnum_us == 0 {
            Vec::new()
        } else {
            slice_to_vec(datas[shstrndx as usize].as_slice())
        };
        proof {
            if shnum_us > 0 {
                assert(strtab@ == spec_strtab(b));
            }
        }

        // Phase three: resolve every name against the string table and build
        // the name-keyed collection; a later section with an already-present
        // name supersedes the earlier one.
        let ghost raw = spec_raw_sections(b);
        let mut out_secs: Vec<Section> = Vec::new();
        let mut ai: usize = 0;
        while ai < shnum_us
            invariant
                ai <= shnum_us,
                headers@.len() == shnum_us - ai,
                datas@.len() == shnum_us - ai,
                forall|k: int| #![trigger headers@[k]]
                    0 <= k < headers@.len() ==> headers@[k]@ == spec_sh_at(b, ai + k),
                forall|k: int| #![trigger datas@[k]]
                    0 <= k < datas@.len() ==> datas@[k]@ == spec_sec_data(b, ai + k),
                views_of(out_secs@) == collapse_names(raw.take(ai as int)),
                distinct_names(views_of(out_secs@)),
            decreases shnum_us - ai,
        {
            let mut hdr0 = headers.remove(0);
            let data0 = datas.remove(0);
            let noff = name_offs[ai];
            let name = get_elf_string(&strtab, noff as usize);
            hdr0.name = name;
            let sec = Section { hdr: hdr0, data: data0 };
            proof {
                assert(sec@ =~= raw[ai as int]);
                lemma_collapse_names(raw.take(ai as int));
                lemma_insert_named(views_of(out_secs@), sec@);
                lemma_collapse_push(raw.take(ai as int), sec@);
                assert(raw.take(ai + 1) =~= raw.take(ai as int).push(raw[ai as int]));
            }
            insert_section(&mut out_secs, sec);
            ai = ai + 1;
        }
        proof {
            assert(raw.take(shnum_us as int) =~= raw);
        }

        let file = File { hdr, sections: out_secs };
        proof {
            let m = FileModel { hdr: spec_file_header(b), sections: collapse_names(raw) };
            assert(spec_parse(b) == Ok::<FileModel, ElfError>(m));
            assert(file@ =~~= m);
            lemma_collapse_names(raw);
        }
        Ok(file)
    }

    /// The decoded file header.
    pub fn header(&self) -> (h: &FileHeader)
        ensures
            *h == self@.hdr,
    {
        &self.hdr
    }

    /// All decoded sections, one per distinct resolved name.
    pub fn sections(&self) -> (s: &Vec<Section>)
        ensures
            s@.len() == self@.sections.len(),
            forall|i: int| #![trigger s@[i]] 0 <= i < s@.len() ==> s@[i]@ == self@.sections[i],
    {
        &self.sections
    }

    /// Looks a section up by its exact name; `None` when no section carries
    /// the name.
    #[verifier::loop_isolation(false)]
    pub fn get_section(&self, name: &str) -> (r: Option<&Section>)
        ensures
            match r {
                Some(sec) => exists|j: int| #![trigger self@.sections[j]]
                    0 <= j < self@.sections.len() && sec@ == self@.sections[j]
                        && sec@.hdr.name == name@,
                None => forall|j: int| #![trigger self@.sections[j]]
                    0 <= j < self@.sections.len() ==> self@.sections[j].hdr.name != name@,
            },
    {
        let n = self.sections.len();
        let mut j: usize = 0;
        while j < n
            invariant
                j <= n,
                forall|k: int| #![trigger self@.sections[k]]
                    0 <= k < j ==> self@.sections[k].hdr.name != name@,
            decreases n - j,
        {
            if str_eq(self.sections[j].hdr.name.as_str(), name) {
                let sec = &self.sections[j];
                proof {
                    assert(self@.sections[j as int] == sec@);
                    assert(sec@.hdr.name == name@);
                }
                return Some(sec);
            }
            j = j + 1;
        }
        None
    }
}

} // verus!
