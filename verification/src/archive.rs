//! `bgd` archives: a version number (2), a table of contents of
//! (timestamp, size, name) entries, then the contents of each file in turn.

use vstd::prelude::*;
use vstd::string::*;
use vstd::utf8::*;

use crate::reader::{le_u32, lemma_le_u32_range, ArchiveCursor};
use crate::texture::{png_texture_of, btf_encode, Texture};
use crate::text::{push_all, ends_with, has_prefix, has_suffix, lowercase, starts_with, to_lowercase, utf8_lossy};

verus! {

/// The only archive version there is.
pub const ARCHIVE_VERSION: u32 = 2;

/// One entry of an archive's table of contents.
pub struct Entry {
    /// Modification time; always within 1999 (UTC) in the game's archives.
    pub timestamp: u32,
    /// Length of the file's contents.
    pub size: u32,
    /// File name.
    pub name: String,
}

/// An entry of the table of contents as the bytes hold it.
pub struct TocRecord {
    pub timestamp: u32,
    pub size: u32,
    /// The bytes of the file name.
    pub name: Seq<u8>,
}

/// The first `n` entries of a table of contents that starts at `pos` in `s`,
/// and where they end; `None` if `s` ends before they do.
pub open spec fn toc_parse(s: Seq<u8>, pos: int, n: nat) -> Option<(Seq<TocRecord>, int)>
    decreases n,
{
    if n == 0 {
        Some((Seq::empty(), pos))
    } else {
        match toc_parse(s, pos, (n - 1) as nat) {
            Some((recs, p)) => if p + 12 <= s.len() && p + 12 + le_u32(s, p + 8) <= s.len() {
                Some(
                    (
                        recs.push(
                            TocRecord {
                                timestamp: le_u32(s, p) as u32,
                                size: le_u32(s, p + 4) as u32,
                                name: s.subrange(p + 12, p + 12 + le_u32(s, p + 8)),
                            },
                        ),
                        p + 12 + le_u32(s, p + 8),
                    ),
                )
            } else {
                None
            },
            None => None,
        }
    }
}

/// Which converter a file is handed to after it is written out.
pub enum Decode {
    /// None: the file is only written out as it is.
    Raw,
    /// A `btf` texture.
    Texture,
    /// A `geo` model.
    Model,
}

/// How the extraction of an archive ends.
pub enum ExtractEnd {
    /// Every file was extracted.
    Finished,
    /// The archive's version is not 2.
    UnknownVersion(u32),
    /// The data ends before the archive does.
    Truncated,
}

/// The converter for a file called `name`, chosen by its lower-cased suffix.
pub open spec fn decode_kind(name: Seq<char>) -> Decode {
    let lower = encode_utf8(lowercase(name));
    if has_suffix(lower, ".btf".spec_bytes()) {
        Decode::Texture
    } else if has_suffix(lower, ".geo".spec_bytes()) {
        Decode::Model
    } else {
        Decode::Raw
    }
}

/// Whether `name` is one of the textures known to decode wrongly (into
/// garbage that shows in the game); they are only written out as they are.
pub open spec fn is_broken_texture(name: Seq<char>) -> bool {
    has_prefix(encode_utf8(name), "railbtm2".spec_bytes())
}

/// The converter that a file called `name` is handed to: none without
/// conversion (`decode` false), and none for the broken textures.
pub open spec fn step_decode(decode: bool, name: Seq<char>) -> Decode {
    if !decode {
        Decode::Raw
    } else if decode_kind(name) == Decode::Texture && is_broken_texture(name) {
        Decode::Raw
    } else {
        decode_kind(name)
    }
}

/// One file to write out during extraction.
pub struct StepModel {
    pub timestamp: u32,
    pub size: u32,
    /// The bytes of the file name.
    pub name: Seq<u8>,
    /// Where the file's contents begin in the archive.
    pub offset: int,
    pub decode: Decode,
}

/// The files to extract from entry `k` on, whose contents begin at `off`, in
/// an archive of `len` bytes, and how extraction ends.
pub open spec fn steps_from(recs: Seq<TocRecord>, k: nat, off: int, len: int, decode: bool) -> (
    Seq<StepModel>,
    ExtractEnd,
)
    decreases recs.len() - k,
{
    if k >= recs.len() {
        (Seq::empty(), ExtractEnd::Finished)
    } else if off + recs[k as int].size > len {
        (Seq::empty(), ExtractEnd::Truncated)
    } else {
        let rec = recs[k as int];
        let step = StepModel {
            timestamp: rec.timestamp,
            size: rec.size,
            name: rec.name,
            offset: off,
            decode: step_decode(decode, utf8_lossy(rec.name)),
        };
        let rest = steps_from(recs, k + 1, off + rec.size, len, decode);
        (seq![step] + rest.0, rest.1)
    }
}

/// The files that the extraction of archive `s` writes out, in order, and how
/// it ends.
pub open spec fn extraction_model(s: Seq<u8>, decode: bool) -> (Seq<StepModel>, ExtractEnd) {
    if s.len() < 4 {
        (Seq::empty(), ExtractEnd::Truncated)
    } else if le_u32(s, 0) != ARCHIVE_VERSION {
        (Seq::empty(), ExtractEnd::UnknownVersion(le_u32(s, 0) as u32))
    } else if s.len() < 8 {
        (Seq::empty(), ExtractEnd::Truncated)
    } else {
        match toc_parse(s, 8, le_u32(s, 4) as nat) {
            None => (Seq::empty(), ExtractEnd::Truncated),
            Some((recs, end)) => steps_from(recs, 0, end, s.len() as int, decode),
        }
    }
}

/// One file to write out: its entry, where its contents begin, and the
/// converter to hand it to.
pub struct ExtractStep {
    pub entry: Entry,
    pub offset: usize,
    pub decode: Decode,
}

/// The plan of an extraction: the files to write out, in order, and how it
/// ends.
pub struct Extraction {
    pub steps: Vec<ExtractStep>,
    pub end: ExtractEnd,
}

/// `step` is the file that `m` describes, its name decoded from the name's
/// bytes.
pub open spec fn step_agrees(step: ExtractStep, m: StepModel) -> bool {
    &&& step.entry.timestamp == m.timestamp
    &&& step.entry.size == m.size
    &&& step.entry.name@ == utf8_lossy(m.name)
    &&& valid_utf8(m.name) ==> step.entry.name@ == decode_utf8(m.name)
    &&& step.offset == m.offset
    &&& step.decode == m.decode
}

/// `r` is the extraction plan of archive `s`.
pub open spec fn extraction_agrees(s: Seq<u8>, decode: bool, r: Extraction) -> bool {
    let m = extraction_model(s, decode);
    &&& r.end == m.1
    &&& r.steps@.len() == m.0.len()
    &&& forall|k: int| 0 <= k < m.0.len() ==> step_agrees(#[trigger] r.steps@[k], m.0[k])
}

/// The files from entry `k` on lie one after another from `off`, inside the
/// archive; without conversion none is handed to a converter.
proof fn lemma_steps_layout(recs: Seq<TocRecord>, k: nat, off: int, len: int, decode: bool)
    ensures
        ({
            let r = steps_from(recs, k, off, len, decode);
            &&& r.0.len() > 0 ==> r.0[0].offset == off
            &&& forall|i: int|
                0 <= i < r.0.len() ==> off <= (#[trigger] r.0[i]).offset && r.0[i].offset
                    + r.0[i].size <= len
            &&& forall|i: int|
                0 <= i < r.0.len() - 1 ==> (#[trigger] r.0[i + 1]).offset == r.0[i].offset
                    + r.0[i].size
            &&& !decode ==> forall|i: int| 0 <= i < r.0.len() ==> (#[trigger] r.0[i]).decode == Decode::Raw
        }),
    decreases recs.len() - k,
{
    if k < recs.len() && off + recs[k as int].size <= len {
        let rec = recs[k as int];
        lemma_steps_layout(recs, k + 1, off + rec.size, len, decode);
        let r = steps_from(recs, k, off, len, decode);
        let rest = steps_from(recs, k + 1, off + rec.size, len, decode);
        if r.0.len() > 1 {
            assert(r.0 == seq![r.0[0]] + rest.0);
            assert(r.0[0].offset == off && r.0[0].size == rec.size);
            assert(rest.0[0].offset == off + rec.size);
            assert forall|i: int| 0 <= i < r.0.len() - 1 implies (#[trigger] r.0[i + 1]).offset
                == r.0[i].offset + r.0[i].size by {
                assert(r.0[i + 1] == rest.0[i]);
                if i > 0 {
                    assert(r.0[i] == rest.0[i - 1]);
                    assert(rest.0[(i - 1) + 1].offset == rest.0[i - 1].offset + rest.0[i - 1].size);
                }
            }
            assert forall|i: int| 0 <= i < r.0.len() implies off <= (#[trigger] r.0[i]).offset
                && r.0[i].offset + r.0[i].size <= len by {
                if i > 0 {
                    assert(r.0[i] == rest.0[i - 1]);
                }
            }
            if !decode {
                assert forall|i: int| 0 <= i < r.0.len() implies (#[trigger] r.0[i]).decode
                    == Decode::Raw by {
                    if i > 0 {
                        assert(r.0[i] == rest.0[i - 1]);
                    }
                }
            }
        }
    }
}

/// The files that extraction writes out lie inside the archive, one right
/// after another with no gap, in table order.
pub proof fn lemma_extraction_layout(s: Seq<u8>, decode: bool)
    ensures
        ({
            let m = extraction_model(s, decode).0;
            &&& forall|i: int|
                0 <= i < m.len() ==> 8 <= (#[trigger] m[i]).offset && m[i].offset + m[i].size
                    <= s.len()
            &&& forall|i: int|
                0 <= i < m.len() - 1 ==> (#[trigger] m[i + 1]).offset == m[i].offset + m[i].size
        }),
{
    if s.len() >= 8 && le_u32(s, 0) == ARCHIVE_VERSION {
        if let Some((recs, end)) = toc_parse(s, 8, le_u32(s, 4) as nat) {
            lemma_toc_parse_end(s, 8, le_u32(s, 4) as nat);
            lemma_steps_layout(recs, 0, end, s.len() as int, decode);
        }
    }
}

/// Without conversion, extraction hands no file to a converter.
pub proof fn lemma_raw_extraction(s: Seq<u8>)
    ensures
        forall|i: int|
            0 <= i < extraction_model(s, false).0.len() ==> (#[trigger] extraction_model(
                s,
                false,
            ).0[i]).decode == Decode::Raw,
{
    if s.len() >= 8 && le_u32(s, 0) == ARCHIVE_VERSION {
        if let Some((recs, end)) = toc_parse(s, 8, le_u32(s, 4) as nat) {
            lemma_steps_layout(recs, 0, end, s.len() as int, false);
        }
    }
}

/// From entry `k` on, extraction with and without conversion writes out the
/// same files and ends the same way.
proof fn lemma_steps_decode_same(recs: Seq<TocRecord>, k: nat, off: int, len: int)
    ensures
        ({
            let a = steps_from(recs, k, off, len, true);
            let b = steps_from(recs, k, off, len, false);
            &&& a.1 == b.1
            &&& a.0.len() == b.0.len()
            &&& forall|i: int|
                0 <= i < a.0.len() ==> {
                    &&& (#[trigger] a.0[i]).timestamp == b.0[i].timestamp
                    &&& a.0[i].size == b.0[i].size
                    &&& a.0[i].name == b.0[i].name
                    &&& a.0[i].offset == b.0[i].offset
                }
        }),
    decreases recs.len() - k,
{
    if k < recs.len() && off + recs[k as int].size <= len {
        let rec = recs[k as int];
        lemma_steps_decode_same(recs, k + 1, off + rec.size, len);
        let a = steps_from(recs, k, off, len, true);
        let b = steps_from(recs, k, off, len, false);
        let ra = steps_from(recs, k + 1, off + rec.size, len, true);
        let rb = steps_from(recs, k + 1, off + rec.size, len, false);
        assert forall|i: int| 0 <= i < a.0.len() implies {
            &&& (#[trigger] a.0[i]).timestamp == b.0[i].timestamp
            &&& a.0[i].size == b.0[i].size
            &&& a.0[i].name == b.0[i].name
            &&& a.0[i].offset == b.0[i].offset
        } by {
            if i > 0 {
                assert(a.0[i] == ra.0[i - 1]);
                assert(b.0[i] == rb.0[i - 1]);
            }
        }
    }
}

/// Converting changes only which converter each file is handed to: with and
/// without it, extraction writes out every file of the archive alike, in the
/// same order, and ends the same way.
pub proof fn lemma_conversion_writes_every_file(s: Seq<u8>)
    ensures
        ({
            let a = extraction_model(s, true);
            let b = extraction_model(s, false);
            &&& a.1 == b.1
            &&& a.0.len() == b.0.len()
            &&& forall|i: int|
                0 <= i < a.0.len() ==> {
                    &&& (#[trigger] a.0[i]).timestamp == b.0[i].timestamp
                    &&& a.0[i].size == b.0[i].size
                    &&& a.0[i].name == b.0[i].name
                    &&& a.0[i].offset == b.0[i].offset
                }
        }),
{
    if s.len() >= 8 && le_u32(s, 0) == ARCHIVE_VERSION {
        if let Some((recs, end)) = toc_parse(s, 8, le_u32(s, 4) as nat) {
            lemma_steps_decode_same(recs, 0, end, s.len() as int);
        }
    }
}

/// With conversion, the converter of each planned file is chosen by its
/// name lower-cased, whatever the case of its letters: a name whose
/// lower-cased form ends in ".btf" goes to the texture converter (unless it
/// begins with "railbtm2", a texture that is only written out), one ending in
/// ".geo" (and not ".btf") to the model converter, and any other to none.
pub proof fn lemma_converter_by_lowercased_name(s: Seq<u8>, r: Extraction)
    requires
        extraction_agrees(s, true, r),
    ensures
        forall|k: int|
            0 <= k < r.steps@.len() ==> {
                let name = (#[trigger] r.steps@[k]).entry.name@;
                let lower = encode_utf8(lowercase(name));
                &&& has_suffix(lower, ".btf".spec_bytes()) && !has_prefix(
                    encode_utf8(name),
                    "railbtm2".spec_bytes(),
                ) ==> r.steps@[k].decode == Decode::Texture
                &&& has_suffix(lower, ".btf".spec_bytes()) && has_prefix(
                    encode_utf8(name),
                    "railbtm2".spec_bytes(),
                ) ==> r.steps@[k].decode == Decode::Raw
                &&& !has_suffix(lower, ".btf".spec_bytes()) && has_suffix(lower, ".geo".spec_bytes())
                    ==> r.steps@[k].decode == Decode::Model
                &&& !has_suffix(lower, ".btf".spec_bytes()) && !has_suffix(
                    lower,
                    ".geo".spec_bytes(),
                ) ==> r.steps@[k].decode == Decode::Raw
            },
{
    let m = extraction_model(s, true);
    assert forall|k: int| 0 <= k < r.steps@.len() implies {
        let name = (#[trigger] r.steps@[k]).entry.name@;
        let lower = encode_utf8(lowercase(name));
        &&& has_suffix(lower, ".btf".spec_bytes()) && !has_prefix(
            encode_utf8(name),
            "railbtm2".spec_bytes(),
        ) ==> r.steps@[k].decode == Decode::Texture
        &&& has_suffix(lower, ".btf".spec_bytes()) && has_prefix(
            encode_utf8(name),
            "railbtm2".spec_bytes(),
        ) ==> r.steps@[k].decode == Decode::Raw
        &&& !has_suffix(lower, ".btf".spec_bytes()) && has_suffix(lower, ".geo".spec_bytes())
            ==> r.steps@[k].decode == Decode::Model
        &&& !has_suffix(lower, ".btf".spec_bytes()) && !has_suffix(lower, ".geo".spec_bytes())
            ==> r.steps@[k].decode == Decode::Raw
    } by {
        assert(step_agrees(r.steps@[k], m.0[k]));
        lemma_step_decode_of_model(s, k);
    }
}

/// Each planned file is handed to `step_decode` of its decoded name.
proof fn lemma_step_decode_of_model(s: Seq<u8>, k: int)
    requires
        0 <= k < extraction_model(s, true).0.len(),
    ensures
        extraction_model(s, true).0[k].decode == step_decode(
            true,
            utf8_lossy(extraction_model(s, true).0[k].name),
        ),
{
    if s.len() >= 8 && le_u32(s, 0) == ARCHIVE_VERSION {
        if let Some((recs, end)) = toc_parse(s, 8, le_u32(s, 4) as nat) {
            lemma_steps_decode_of_name(recs, 0, end, s.len() as int, k);
        }
    }
}

/// From entry `k` on, each planned file is handed to `step_decode` of its
/// decoded name.
proof fn lemma_steps_decode_of_name(recs: Seq<TocRecord>, k: nat, off: int, len: int, i: int)
    requires
        0 <= i < steps_from(recs, k, off, len, true).0.len(),
    ensures
        steps_from(recs, k, off, len, true).0[i].decode == step_decode(
            true,
            utf8_lossy(steps_from(recs, k, off, len, true).0[i].name),
        ),
    decreases recs.len() - k,
{
    if k < recs.len() && off + recs[k as int].size <= len {
        let rest = steps_from(recs, k + 1, off + recs[k as int].size, len, true);
        if i > 0 {
            assert(steps_from(recs, k, off, len, true).0[i] == rest.0[i - 1]);
            lemma_steps_decode_of_name(recs, k + 1, off + recs[k as int].size, len, i - 1);
        }
    }
}

/// A table of contents ends no earlier than it starts.
proof fn lemma_toc_parse_end(s: Seq<u8>, pos: int, n: nat)
    ensures
        toc_parse(s, pos, n) matches Some((recs, end)) ==> pos <= end,
    decreases n,
{
    if n > 0 {
        lemma_toc_parse_end(s, pos, (n - 1) as nat);
    }
}

/// Once the table of contents runs past the data, it does so for every longer
/// count too.
proof fn lemma_toc_parse_none(s: Seq<u8>, pos: int, i: nat, n: nat)
    requires
        i <= n,
        toc_parse(s, pos, i) is None,
    ensures
        toc_parse(s, pos, n) is None,
    decreases n,
{
    if i < n {
        lemma_toc_parse_none(s, pos, i, (n - 1) as nat);
    }
}

/// Works out which files an archive holds, where their contents lie and what
/// each is to be converted with (`decode`), and how extraction ends.
pub fn plan_extraction(data: &[u8], decode: bool) -> (r: Extraction)
    ensures
        extraction_agrees(data@, decode, r),
{
    let ghost s = data@;
    let mut steps: Vec<ExtractStep> = Vec::new();
    if data.len() < 4 {
        return Extraction { steps, end: ExtractEnd::Truncated };
    }
    let mut archive = ArchiveCursor { data, pos: 0 };
    let version = archive.read_u32();
    if version != ARCHIVE_VERSION {
        return Extraction { steps, end: ExtractEnd::UnknownVersion(version) };
    }
    if data.len() < 8 {
        return Extraction { steps, end: ExtractEnd::Truncated };
    }
    let num_entries = archive.read_u32();
    let mut entries: Vec<Entry> = Vec::new();
    let ghost mut recs: Seq<TocRecord> = Seq::empty();
    let mut i: u32 = 0;
    while i < num_entries
        invariant
            archive.data == data,
            s == data@,
            8 <= s.len(),
            le_u32(s, 0) == ARCHIVE_VERSION,
            steps@.len() == 0,
            i <= num_entries,
            num_entries == le_u32(s, 4),
            toc_parse(s, 8, i as nat) == Some((recs, archive.pos as int)),
            archive.pos <= data.len(),
            entries@.len() == i,
            recs.len() == i,
            forall|j: int|
                0 <= j < i ==> {
                    &&& (#[trigger] entries@[j]).timestamp == recs[j].timestamp
                    &&& entries@[j].size == recs[j].size
                    &&& entries@[j].name@ == utf8_lossy(recs[j].name)
                    &&& valid_utf8(recs[j].name) ==> entries@[j].name@ == decode_utf8(recs[j].name)
                },
        decreases num_entries - i,
    {
        if data.len() - archive.pos < 12 {
            assert(toc_parse(s, 8, (i + 1) as nat) is None);
            proof {
                lemma_toc_parse_none(s, 8, (i + 1) as nat, num_entries as nat);
            }
            return Extraction { steps, end: ExtractEnd::Truncated };
        }
        let ghost p = archive.pos as int;
        let timestamp = archive.read_u32();
        let size = archive.read_u32();
        let name_len = archive.read_u32();
        if data.len() - archive.pos < name_len as usize {
            assert(toc_parse(s, 8, (i + 1) as nat) is None);
            proof {
                lemma_toc_parse_none(s, 8, (i + 1) as nat, num_entries as nat);
            }
            return Extraction { steps, end: ExtractEnd::Truncated };
        }
        let name = archive.read_string(name_len as usize);
        proof {
            recs = recs.push(TocRecord { timestamp, size, name: s.subrange(p + 12, p + 12 + name_len) });
        }
        entries.push(Entry { timestamp, size, name });
        i = i + 1;
    }
    let ghost whole = steps_from(recs, 0, archive.pos as int, s.len() as int, decode);
    assert(extraction_model(s, decode) == whole);
    let mut off: usize = archive.pos;
    let mut k: usize = 0;
    while k < entries.len()
        invariant
            s == data@,
            extraction_model(s, decode) == whole,
            entries@.len() == recs.len(),
            forall|j: int|
                0 <= j < recs.len() ==> {
                    &&& (#[trigger] entries@[j]).timestamp == recs[j].timestamp
                    &&& entries@[j].size == recs[j].size
                    &&& entries@[j].name@ == utf8_lossy(recs[j].name)
                    &&& valid_utf8(recs[j].name) ==> entries@[j].name@ == decode_utf8(recs[j].name)
                },
            k <= entries@.len(),
            off <= data.len(),
            steps@.len() + steps_from(recs, k as nat, off as int, s.len() as int, decode).0.len()
                == whole.0.len(),
            steps_from(recs, k as nat, off as int, s.len() as int, decode).1 == whole.1,
            forall|j: int| 0 <= j < steps@.len() ==> step_agrees(#[trigger] steps@[j], whole.0[j]),
            forall|j: int|
                0 <= j < steps_from(recs, k as nat, off as int, s.len() as int, decode).0.len()
                    ==> #[trigger] whole.0[steps@.len() + j] == steps_from(
                    recs,
                    k as nat,
                    off as int,
                    s.len() as int,
                    decode,
                ).0[j],
        decreases entries@.len() - k,
    {
        let ghost rest = steps_from(recs, k as nat, off as int, s.len() as int, decode);
        let entry = &entries[k];
        let size = entry.size as usize;
        assert(entries@[k as int].size == recs[k as int].size);
        if data.len() - off < size {
            assert(rest.1 == ExtractEnd::Truncated);
            return Extraction { steps, end: ExtractEnd::Truncated };
        }
        let mut kind = Decode::Raw;
        if decode {
            let lower = to_lowercase(entry.name.as_str());
            if ends_with(lower.as_str().as_bytes(), ".btf".as_bytes()) {
                if !starts_with(entry.name.as_str().as_bytes(), "railbtm2".as_bytes()) {
                    kind = Decode::Texture;
                }
            } else if ends_with(lower.as_str().as_bytes(), ".geo".as_bytes()) {
                kind = Decode::Model;
            }
        }
        let ghost idx = steps@.len() as int;
        assert(entries@[k as int].name@ == utf8_lossy(recs[k as int].name));
        assert(kind == step_decode(decode, utf8_lossy(recs[k as int].name)));
        assert(rest.0.len() > 0);
        assert(whole.0[idx + 0] == rest.0[0]);
        steps.push(
            ExtractStep {
                entry: Entry { timestamp: entry.timestamp, size: entry.size, name: entry.name.clone() },
                offset: off,
                decode: kind,
            },
        );
        assert(step_agrees(steps@[idx], whole.0[idx]));
        let ghost next = steps_from(recs, (k + 1) as nat, off + size, s.len() as int, decode);
        assert(rest.0 == seq![rest.0[0]] + next.0);
        assert(rest.1 == next.1);
        assert forall|j: int| 0 <= j < next.0.len() implies #[trigger] whole.0[steps@.len() + j] == next.0[j] by {
            assert(whole.0[idx + (1 + j)] == rest.0[1 + j]);
        }
        off = off + size;
        k = k + 1;
    }
    Extraction { steps, end: ExtractEnd::Finished }
}

/// The timestamp that packing gives every entry: 2000-01-01 13:00 UTC.
pub const PACK_TIMESTAMP: u32 = 946731600;

/// The four little-endian bytes of `x`.
pub open spec fn u32_bytes(x: u32) -> Seq<u8> {
    seq![(x % 256) as u8, ((x / 256) % 256) as u8, ((x / 65536) % 256) as u8, (x / 16777216) as u8]
}

/// The table-of-contents entry that packing writes for a file called `name`
/// of `size` bytes.
pub open spec fn toc_entry_bytes(name: Seq<char>, size: nat) -> Seq<u8> {
    u32_bytes(PACK_TIMESTAMP) + u32_bytes(size as u32) + u32_bytes(encode_utf8(name).len() as u32)
        + encode_utf8(name)
}

/// The table-of-contents entries of the first `n` files.
pub open spec fn toc_bytes(names: Seq<Seq<char>>, contents: Seq<Seq<u8>>, n: nat) -> Seq<u8>
    decreases n,
{
    if n == 0 {
        Seq::empty()
    } else {
        toc_bytes(names, contents, (n - 1) as nat) + toc_entry_bytes(
            names[n - 1],
            contents[n - 1].len(),
        )
    }
}

/// The files gathered for an archive, in the order they were added.
pub struct PackView {
    pub names: Seq<Seq<char>>,
    pub contents: Seq<Seq<u8>>,
}

/// The archive that packing writes for the files of `v`.
pub open spec fn pack_bytes(v: PackView) -> Seq<u8> {
    u32_bytes(ARCHIVE_VERSION) + u32_bytes(v.names.len() as u32) + toc_bytes(
        v.names,
        v.contents,
        v.names.len(),
    ) + v.contents.flatten_alt()
}

/// Four bytes written by `u32_bytes` read back as the same number.
pub proof fn lemma_u32_bytes(s: Seq<u8>, p: int, x: u32)
    requires
        0 <= p,
        p + 4 <= s.len(),
        s.subrange(p, p + 4) == u32_bytes(x),
    ensures
        le_u32(s, p) == x,
{
    assert(s[p] == s.subrange(p, p + 4)[0]);
    assert(s[p + 1] == s.subrange(p, p + 4)[1]);
    assert(s[p + 2] == s.subrange(p, p + 4)[2]);
    assert(s[p + 3] == s.subrange(p, p + 4)[3]);
    assert((x % 256) + ((x / 256) % 256) * 256 + (((x / 65536) % 256) + (x / 16777216) * 256)
        * 65536 == x) by (bit_vector);
}

/// Whether packing can write the files of `v` without cutting any count or
/// length down to 32 bits.
pub open spec fn pack_fits(v: PackView) -> bool {
    &&& v.names.len() == v.contents.len()
    &&& v.names.len() <= u32::MAX
    &&& forall|k: int|
        0 <= k < v.names.len() ==> encode_utf8(#[trigger] v.names[k]).len() <= u32::MAX
            && v.contents[k].len() <= u32::MAX
}

/// The table-of-contents records that packing writes for the first `n` files.
pub open spec fn packed_records(v: PackView, n: nat) -> Seq<TocRecord> {
    Seq::new(
        n,
        |k: int|
            TocRecord {
                timestamp: PACK_TIMESTAMP,
                size: v.contents[k].len() as u32,
                name: encode_utf8(v.names[k]),
            },
    )
}

/// Reading back the table of contents that packing wrote gives the records
/// it was written from.
proof fn lemma_toc_parse_packed(s: Seq<u8>, v: PackView, n: nat)
    requires
        pack_fits(v),
        n <= v.names.len(),
        8int + toc_bytes(v.names, v.contents, n).len() <= s.len(),
        s.subrange(8, 8int + toc_bytes(v.names, v.contents, n).len()) == toc_bytes(
            v.names,
            v.contents,
            n,
        ),
    ensures
        toc_parse(s, 8, n) == Some(
            (packed_records(v, n), 8int + toc_bytes(v.names, v.contents, n).len()),
        ),
    decreases n,
{
    if n > 0 {
        let m = (n - 1) as nat;
        let prev = toc_bytes(v.names, v.contents, m);
        let name = encode_utf8(v.names[m as int]);
        let size = v.contents[m as int].len();
        let e = toc_entry_bytes(v.names[m as int], size);
        let p = 8int + prev.len();
        assert(toc_bytes(v.names, v.contents, n) == prev + e);
        assert(s.subrange(8, 8int + prev.len()) =~= prev) by {
            assert(s.subrange(8, 8int + prev.len()) =~= s.subrange(8, 8int + prev.len() + e.len()).subrange(
                0,
                prev.len() as int,
            ));
        }
        lemma_toc_parse_packed(s, v, m);
        assert(s.subrange(p, p + e.len()) =~= e) by {
            assert(s.subrange(p, p + e.len()) =~= s.subrange(8, 8int + prev.len() + e.len()).subrange(
                prev.len() as int,
                prev.len() + e.len() as int,
            ));
        }
        assert(s.subrange(p, p + 4) =~= u32_bytes(PACK_TIMESTAMP)) by {
            assert(s.subrange(p, p + 4) =~= s.subrange(p, p + e.len()).subrange(0, 4));
        }
        assert(s.subrange(p + 4, p + 8) =~= u32_bytes(size as u32)) by {
            assert(s.subrange(p + 4, p + 8) =~= s.subrange(p, p + e.len()).subrange(4, 8));
        }
        assert(s.subrange(p + 8, p + 12) =~= u32_bytes(name.len() as u32)) by {
            assert(s.subrange(p + 8, p + 12) =~= s.subrange(p, p + e.len()).subrange(8, 12));
        }
        assert(s.subrange(p + 12, p + 12 + name.len()) =~= name) by {
            assert(s.subrange(p + 12, p + 12 + name.len()) =~= s.subrange(p, p + e.len()).subrange(
                12,
                12int + name.len(),
            ));
        }
        lemma_u32_bytes(s, p, PACK_TIMESTAMP);
        lemma_u32_bytes(s, p + 4, size as u32);
        lemma_u32_bytes(s, p + 8, name.len() as u32);
        assert(v.names[m as int] == v.names[m as int]);
        assert(name.len() <= u32::MAX);
        assert(packed_records(v, n) =~= packed_records(v, m).push(
            TocRecord { timestamp: PACK_TIMESTAMP, size: size as u32, name },
        ));
    } else {
        assert(packed_records(v, n) =~= Seq::<TocRecord>::empty());
    }
}

/// The contents of the first `m + 1` files are those of the first `m`, then
/// file `m`'s.
proof fn lemma_flatten_take_step(c: Seq<Seq<u8>>, m: int)
    requires
        0 <= m < c.len(),
    ensures
        c.take(m + 1).flatten_alt() == c.take(m).flatten_alt() + c[m],
{
    assert(c.take(m + 1).drop_last() =~= c.take(m));
}

/// The contents of the first `m` files begin the contents of the first `m2`.
proof fn lemma_flatten_take_prefix(c: Seq<Seq<u8>>, m: int, m2: int)
    requires
        0 <= m <= m2 <= c.len(),
    ensures
        c.take(m).flatten_alt().len() <= c.take(m2).flatten_alt().len(),
        c.take(m2).flatten_alt().subrange(0, c.take(m).flatten_alt().len() as int) == c.take(
            m,
        ).flatten_alt(),
    decreases m2 - m,
{
    if m < m2 {
        lemma_flatten_take_step(c, m2 - 1);
        lemma_flatten_take_prefix(c, m, m2 - 1);
        assert(c.take(m2).flatten_alt().subrange(0, c.take(m).flatten_alt().len() as int) =~= c.take(
            m2 - 1,
        ).flatten_alt().subrange(0, c.take(m).flatten_alt().len() as int));
    } else {
        assert(c.take(m2).flatten_alt().subrange(0, c.take(m).flatten_alt().len() as int) =~= c.take(
            m,
        ).flatten_alt());
    }
}

/// The step in which extraction writes out file `i` of a packed archive
/// whose contents begin at `base`.
pub open spec fn packed_step(v: PackView, base: int, i: int) -> StepModel {
    StepModel {
        timestamp: PACK_TIMESTAMP,
        size: v.contents[i].len() as u32,
        name: encode_utf8(v.names[i]),
        offset: base + v.contents.take(i).flatten_alt().len(),
        decode: Decode::Raw,
    }
}

/// Raw extraction of a packed archive writes out each file in turn and
/// finishes.
#[verifier::spinoff_prover]
#[verifier::rlimit(30)]
proof fn lemma_steps_packed(v: PackView, base: int, len: int, k: nat)
    requires
        pack_fits(v),
        k <= v.names.len(),
        base + v.contents.flatten_alt().len() <= len,
    ensures
        steps_from(
            packed_records(v, v.names.len()),
            k,
            base + v.contents.take(k as int).flatten_alt().len(),
            len,
            false,
        ) == (
            Seq::new((v.names.len() - k) as nat, |j: int| packed_step(v, base, k + j)),
            ExtractEnd::Finished,
        ),
    decreases v.names.len() - k,
{
    let n = v.names.len();
    let c = v.contents;
    if k < n {
        lemma_flatten_take_step(c, k as int);
        lemma_flatten_take_prefix(c, k + 1int, n as int);
        assert(c.take(n as int) =~= c);
        lemma_steps_packed(v, base, len, k + 1);
        assert(Seq::new((n - k) as nat, |j: int| packed_step(v, base, k + j)) =~= seq![
            packed_step(v, base, k as int),
        ] + Seq::new((n - (k + 1)) as nat, |j: int| packed_step(v, base, k + 1 + j)));
    } else {
        assert(Seq::new((n - k) as nat, |j: int| packed_step(v, base, k + j)) =~= Seq::<
            StepModel,
        >::empty());
    }
}

/// Packing files into an archive and extracting it without conversion gives
/// back every file, in the order packed, with its name, the packing
/// timestamp, its size, and its contents at the offset the plan names.
pub proof fn lemma_pack_then_extract(v: PackView, r: Extraction)
    requires
        pack_fits(v),
        extraction_agrees(pack_bytes(v), false, r),
    ensures
        r.end == ExtractEnd::Finished,
        r.steps@.len() == v.names.len(),
        forall|k: int|
            0 <= k < v.names.len() ==> {
                &&& (#[trigger] r.steps@[k]).entry.name@ == v.names[k]
                &&& r.steps@[k].entry.timestamp == PACK_TIMESTAMP
                &&& r.steps@[k].entry.size == v.contents[k].len()
                &&& r.steps@[k].decode == Decode::Raw
                &&& pack_bytes(v).subrange(
                    r.steps@[k].offset as int,
                    r.steps@[k].offset + v.contents[k].len(),
                ) == v.contents[k]
            },
{
    let s = pack_bytes(v);
    let n = v.names.len();
    let c = v.contents;
    let t = toc_bytes(v.names, c, n);
    let flat = c.flatten_alt();
    let base = 8int + t.len();
    assert(s.subrange(0, 4) =~= u32_bytes(ARCHIVE_VERSION));
    assert(s.subrange(4, 8) =~= u32_bytes(n as u32));
    assert(s.subrange(8, base) =~= t);
    lemma_u32_bytes(s, 0, ARCHIVE_VERSION);
    lemma_u32_bytes(s, 4, n as u32);
    lemma_toc_parse_packed(s, v, n);
    assert(c.take(0).flatten_alt() =~= Seq::<u8>::empty());
    lemma_steps_packed(v, base, s.len() as int, 0);
    let m = extraction_model(s, false);
    assert(m.0 =~= Seq::new(n, |j: int| packed_step(v, base, j)));
    assert forall|k: int| 0 <= k < n implies {
        &&& (#[trigger] r.steps@[k]).entry.name@ == v.names[k]
        &&& r.steps@[k].entry.timestamp == PACK_TIMESTAMP
        &&& r.steps@[k].entry.size == v.contents[k].len()
        &&& r.steps@[k].decode == Decode::Raw
        &&& s.subrange(r.steps@[k].offset as int, r.steps@[k].offset + v.contents[k].len())
            == v.contents[k]
    } by {
        assert(step_agrees(r.steps@[k], m.0[k]));
        encode_utf8_valid_utf8(v.names[k]);
        encode_utf8_decode_utf8(v.names[k]);
        lemma_flatten_take_step(c, k);
        lemma_flatten_take_prefix(c, k + 1, n as int);
        assert(c.take(n as int) =~= c);
        let fk = c.take(k).flatten_alt().len() as int;
        assert(s.subrange(base + fk, base + fk + c[k].len()) =~= c.take(k + 1).flatten_alt().subrange(
            fk,
            fk + c[k].len(),
        ));
        assert(c.take(k + 1).flatten_alt().subrange(fk, fk + c[k].len()) =~= c[k]);
    }
}

/// Appends the four little-endian bytes of `x`.
fn push_u32(out: &mut Vec<u8>, x: u32)
    ensures
        final(out)@ == old(out)@ + u32_bytes(x),
{
    let ghost start = out@;
    out.push((x % 256) as u8);
    out.push(((x / 256) % 256) as u8);
    out.push(((x / 65536) % 256) as u8);
    out.push((x / 16777216) as u8);
    assert(out@ =~= start + u32_bytes(x));
}

/// Why a file could not be packed.
#[derive(Debug, PartialEq, Eq, Structural)]
pub enum PackError {
    /// The name ends in ".png" (ignoring case) but cannot lose its last four
    /// bytes at a character boundary.
    UnsplittableName,
    /// The ".png" file is not a PNG image that can be read, or it is wider or
    /// higher than a texture can be.
    UndecodablePng,
}

/// Whether a file called `name` is a PNG image to convert: its lower-cased
/// name ends in ".png".
pub open spec fn png_named(name: Seq<char>) -> bool {
    has_suffix(encode_utf8(lowercase(name)), ".png".spec_bytes())
}

/// Whether `name` can lose its last four bytes at a character boundary.
pub open spec fn name_splittable(name: Seq<char>) -> bool {
    let b = encode_utf8(name);
    b.len() >= 4 && is_char_boundary(b, b.len() - 4)
}

/// `name` without its last four bytes.
pub open spec fn png_stem(name: Seq<char>) -> Seq<char> {
    let b = encode_utf8(name);
    decode_utf8(b.take(b.len() - 4))
}

/// What packing makes of a file read from disk under the name `name`: a file
/// whose lower-cased name ends in ".png" becomes a `btf` texture without mip
/// levels, named without its last four bytes; any other file stays as it is.
pub fn prepare_file(name: String, raw: Vec<u8>) -> (r: Result<(String, Vec<u8>), PackError>)
    ensures
        !png_named(name@) ==> (r matches Ok((n, c)) && n@ == name@ && c@ == raw@),
        png_named(name@) && !name_splittable(name@) ==> r == Err::<(String, Vec<u8>), PackError>(
            PackError::UnsplittableName,
        ),
        png_named(name@) && name_splittable(name@) && png_texture_of(raw@, 0) is None ==> r
            == Err::<(String, Vec<u8>), PackError>(PackError::UndecodablePng),
        png_named(name@) && name_splittable(name@) && png_texture_of(raw@, 0) is Some ==> (r matches Ok(
            (n, c),
        ) && n@ == png_stem(name@) && c@ == btf_encode(png_texture_of(raw@, 0).unwrap())),
{
    let lower = to_lowercase(name.as_str());
    if !ends_with(lower.as_str().as_bytes(), ".png".as_bytes()) {
        return Ok((name, raw));
    }
    let bytes = name.as_str().as_bytes();
    if bytes.len() < 4 || !name.as_str().is_char_boundary(bytes.len() - 4) {
        return Err(PackError::UnsplittableName);
    }
    let (head, _) = name.as_str().split_at(bytes.len() - 4);
    let stem = head.to_owned();
    proof {
        encode_utf8_decode_utf8(stem@);
    }
    match Texture::from_png(raw.as_slice(), 0) {
        Some(texture) => Ok((stem, texture.to_raw())),
        None => Err(PackError::UndecodablePng),
    }
}

/// The files gathered so far for a new archive.
pub struct Packer {
    toc: Vec<Entry>,
    contents: Vec<Vec<u8>>,
}

impl View for Packer {
    type V = PackView;

    closed spec fn view(&self) -> PackView {
        PackView {
            names: self.toc@.map_values(|e: Entry| e.name@),
            contents: self.contents@.map_values(|c: Vec<u8>| c@),
        }
    }
}

impl Packer {
    #[verifier::type_invariant]
    closed spec fn inv(self) -> bool {
        &&& self.toc@.len() == self.contents@.len()
        &&& forall|k: int|
            0 <= k < self.toc@.len() ==> {
                &&& (#[trigger] self.toc@[k]).timestamp == PACK_TIMESTAMP
                &&& self.toc@[k].size == self.contents@[k]@.len() as u32
            }
    }

    /// No files yet.
    pub fn new() -> (p: Packer)
        ensures
            p@.names == Seq::<Seq<char>>::empty(),
            p@.contents == Seq::<Seq<u8>>::empty(),
    {
        let p = Packer { toc: Vec::new(), contents: Vec::new() };
        assert(p@.names =~= Seq::<Seq<char>>::empty());
        assert(p@.contents =~= Seq::<Seq<u8>>::empty());
        p
    }

    /// Adds a file, unless one of the same name is already there (the first
    /// one added wins). Returns whether it was added.
    pub fn add(&mut self, name: String, contents: Vec<u8>) -> (added: bool)
        ensures
            added == !old(self)@.names.contains(name@),
            added ==> final(self)@.names == old(self)@.names.push(name@) && final(self)@.contents
                == old(self)@.contents.push(contents@),
            !added ==> final(self)@ == old(self)@,
    {
        proof {
            use_type_invariant(&*self);
        }
        let mut i: usize = 0;
        while i < self.toc.len()
            invariant
                i <= self.toc@.len(),
                forall|j: int| 0 <= j < i ==> self.toc@[j].name@ != name@,
            decreases self.toc@.len() - i,
        {
            if self.toc[i].name == name {
                assert(self@.names[i as int] == name@);
                return false;
            }
            i = i + 1;
        }
        assert(!self@.names.contains(name@)) by {
            if self@.names.contains(name@) {
                let j = choose|j: int| 0 <= j < self@.names.len() && self@.names[j] == name@;
                assert(self.toc@[j].name@ == name@);
            }
        }
        let size = contents.len() as u32;
        let ghost old_view = self@;
        let ghost c = contents@;
        let mut taken = Packer { toc: Vec::new(), contents: Vec::new() };
        std::mem::swap(&mut taken, self);
        let Packer { mut toc, contents: mut all } = taken;
        toc.push(Entry { timestamp: PACK_TIMESTAMP, size, name });
        all.push(contents);
        *self = Packer { toc, contents: all };
        assert(self@.names =~= old_view.names.push(name@));
        assert(self@.contents =~= old_view.contents.push(c));
        true
    }

    /// The bytes of the archive holding the files added so far.
    pub fn to_bytes(&self) -> (out: Vec<u8>)
        ensures
            out@ == pack_bytes(self@),
    {
        proof {
            use_type_invariant(self);
        }
        let mut out: Vec<u8> = Vec::new();
        push_u32(&mut out, ARCHIVE_VERSION);
        push_u32(&mut out, self.toc.len() as u32);
        let ghost head = out@;
        let mut i: usize = 0;
        while i < self.toc.len()
            invariant
                self.toc@.len() == self.contents@.len(),
                forall|k: int|
                    0 <= k < self.toc@.len() ==> {
                        &&& (#[trigger] self.toc@[k]).timestamp == PACK_TIMESTAMP
                        &&& self.toc@[k].size == self.contents@[k]@.len() as u32
                    },
                i <= self.toc@.len(),
                out@ == head + toc_bytes(self@.names, self@.contents, i as nat),
            decreases self.toc@.len() - i,
        {
            let entry = &self.toc[i];
            push_u32(&mut out, entry.timestamp);
            push_u32(&mut out, entry.size);
            let name = entry.name.as_str().as_bytes();
            push_u32(&mut out, name.len() as u32);
            push_all(&mut out, name);
            i = i + 1;
            assert(out@ =~= head + toc_bytes(self@.names, self@.contents, i as nat));
        }
        let ghost mid = out@;
        let mut k: usize = 0;
        while k < self.contents.len()
            invariant
                k <= self.contents@.len(),
                out@ == mid + self@.contents.take(k as int).flatten_alt(),
            decreases self.contents@.len() - k,
        {
            push_all(&mut out, self.contents[k].as_slice());
            assert(self@.contents.take(k + 1).drop_last() =~= self@.contents.take(k as int));
            k = k + 1;
        }
        assert(self@.contents.take(k as int) =~= self@.contents);
        assert(self@.names.len() == self.toc@.len());
        out
    }
}

} // verus!
