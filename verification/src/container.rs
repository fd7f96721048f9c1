//! The archive container: the byte-exact layout that holds many files'
//! run records in one buffer, and the transforms between file lists and
//! archive bytes.  This buffer is the archive file itself, byte for
//! byte: packing hands back exactly what is stored, and unpacking takes
//! exactly what was read.
//!
//! Layout, in order: an eight-byte little-endian entry count; one
//! directory row per file (four-byte little-endian path byte length, the
//! UTF-8 path bytes, eight-byte little-endian encoded size, eight-byte
//! little-endian payload offset); then the payload region, the
//! concatenation of every file's run records.  Offsets are measured from
//! the start of the file, so they already count the entry-count field
//! and the whole directory table.

use vstd::prelude::*;

verus! {

use vstd::bytes::spec_u32_from_le_bytes;
use vstd::bytes::spec_u32_to_le_bytes;
use vstd::bytes::spec_u64_from_le_bytes;
use vstd::bytes::spec_u64_to_le_bytes;
use vstd::bytes::lemma_auto_spec_u32_to_from_le_bytes;
use vstd::bytes::lemma_auto_spec_u64_to_from_le_bytes;
use vstd::bytes::u32_from_le_bytes;
use vstd::bytes::u32_to_le_bytes;
use vstd::bytes::u64_from_le_bytes;
use vstd::bytes::u64_to_le_bytes;
use vstd::slice::slice_subrange;
use vstd::slice::slice_to_vec;
use vstd::utf8::encode_utf8;
use vstd::utf8::decode_utf8;
use vstd::utf8::valid_utf8;
use vstd::string::StrSliceExecFns;
use crate::codec::decoded_bytes;
use crate::codec::parse_records;
use crate::codec::rle_bytes;
use crate::codec::rle_decode;
use crate::codec::rle_encode;
use crate::models::ArchiveError;
use crate::models::EntryView;
use crate::models::FileData;
use crate::models::FileDataView;
use crate::models::FileEntry;

/// The views of a list of in-memory files.
pub open spec fn views_of(files: Seq<FileData>) -> Seq<FileDataView> {
    files.map_values(|f: FileData| f@)
}

/// The views of a list of directory entries.
pub open spec fn entry_views(entries: Seq<FileEntry>) -> Seq<EntryView> {
    entries.map_values(|e: FileEntry| e@)
}

/// The serialized bytes of one directory row.
pub open spec fn entry_bytes(path: Seq<char>, size: u64, offset: u64) -> Seq<u8> {
    spec_u32_to_le_bytes(encode_utf8(path).len() as u32) + encode_utf8(path)
        + spec_u64_to_le_bytes(size) + spec_u64_to_le_bytes(offset)
}

/// Bytes taken by the entry count and the first `n` directory rows.
pub open spec fn dir_len(files: Seq<FileDataView>, n: int) -> int
    decreases n,
{
    if n <= 0 {
        8
    } else {
        dir_len(files, n - 1) + 20 + encode_utf8(files[n - 1].path).len()
    }
}

/// Bytes taken by the encoded payloads of the first `n` files.
pub open spec fn payload_len(files: Seq<FileDataView>, n: int) -> int
    decreases n,
{
    if n <= 0 {
        0
    } else {
        payload_len(files, n - 1) + rle_bytes(files[n - 1].contents).len()
    }
}

/// The absolute offset of file `i`'s payload region: the whole directory,
/// then every earlier file's run records.
pub open spec fn entry_offset(files: Seq<FileDataView>, i: int) -> int {
    dir_len(files, files.len() as int) + payload_len(files, i)
}

/// The entry count and the first `n` directory rows, serialized.
pub open spec fn directory_bytes(files: Seq<FileDataView>, n: int) -> Seq<u8>
    decreases n,
{
    if n <= 0 {
        spec_u64_to_le_bytes(files.len() as u64)
    } else {
        directory_bytes(files, n - 1) + entry_bytes(
            files[n - 1].path,
            rle_bytes(files[n - 1].contents).len() as u64,
            entry_offset(files, n - 1) as u64,
        )
    }
}

/// The concatenated run records of the first `n` files.
pub open spec fn payload_bytes(files: Seq<FileDataView>, n: int) -> Seq<u8>
    decreases n,
{
    if n <= 0 {
        Seq::empty()
    } else {
        payload_bytes(files, n - 1) + rle_bytes(files[n - 1].contents)
    }
}

/// The full archive: directory table, then payload region.
pub open spec fn archive_bytes(files: Seq<FileDataView>) -> Seq<u8> {
    directory_bytes(files, files.len() as int) + payload_bytes(files, files.len() as int)
}

/// The directory grows by one 20-byte-plus-path row per file.
proof fn lemma_dir_len(files: Seq<FileDataView>, n: int)
    ensures
        dir_len(files, n) >= 8,
        n >= 0 ==> dir_len(files, n) >= 8 + 20 * n,
        directory_bytes(files, n).len() == dir_len(files, n),
    decreases n,
{
    lemma_auto_spec_u32_to_from_le_bytes();
    lemma_auto_spec_u64_to_from_le_bytes();
    if n > 0 {
        lemma_dir_len(files, n - 1);
    }
}

/// The payload region is exactly the recorded payload sizes, in order.
proof fn lemma_payload_len(files: Seq<FileDataView>, n: int)
    ensures
        payload_len(files, n) >= 0,
        payload_bytes(files, n).len() == payload_len(files, n),
    decreases n,
{
    if n > 0 {
        lemma_payload_len(files, n - 1);
    }
}

/// Both region accountings grow monotonically with the file index.
proof fn lemma_len_mono(files: Seq<FileDataView>, a: int, b: int)
    requires
        a <= b,
    ensures
        payload_len(files, a) <= payload_len(files, b),
        dir_len(files, a) <= dir_len(files, b),
        0 <= a < b ==> dir_len(files, a) + 20 <= dir_len(files, b),
    decreases b - a,
{
    if a < b {
        lemma_len_mono(files, a, b - 1);
    }
}

/// A shorter directory is a prefix of a longer one.
proof fn lemma_dir_prefix(files: Seq<FileDataView>, k: int, n: int)
    requires
        k <= n,
    ensures
        directory_bytes(files, n).take(dir_len(files, k)) == directory_bytes(files, k),
    decreases n - k,
{
    lemma_dir_len(files, k);
    lemma_dir_len(files, n);
    if k == n {
        assert(directory_bytes(files, n).take(dir_len(files, n)) =~= directory_bytes(files, n));
    } else {
        lemma_dir_prefix(files, k, n - 1);
        lemma_dir_len(files, n - 1);
        lemma_len_mono(files, k, n - 1);
        assert(directory_bytes(files, n).take(dir_len(files, k)) =~= directory_bytes(
            files,
            n - 1,
        ).take(dir_len(files, k)));
    }
}

/// A UTF-8 encoding takes between one and four bytes per character.
proof fn lemma_encode_utf8_len(chars: Seq<char>)
    ensures
        chars.len() <= encode_utf8(chars).len() <= 4 * chars.len(),
    decreases chars.len(),
{
    if chars.len() > 0 {
        lemma_encode_utf8_len(chars.drop_first());
    }
}

/// A shorter payload is a prefix of a longer one.
proof fn lemma_payload_prefix(files: Seq<FileDataView>, k: int, n: int)
    requires
        k <= n,
    ensures
        payload_bytes(files, n).take(payload_len(files, k)) == payload_bytes(files, k),
    decreases n - k,
{
    lemma_payload_len(files, k);
    lemma_payload_len(files, n);
    if k >= n {
        assert(payload_bytes(files, n).take(payload_len(files, n)) =~= payload_bytes(files, n));
    } else {
        lemma_payload_prefix(files, k, n - 1);
        lemma_payload_len(files, n - 1);
        lemma_len_mono(files, k, n - 1);
        assert(payload_bytes(files, n).take(payload_len(files, k)) =~= payload_bytes(
            files,
            n - 1,
        ).take(payload_len(files, k)));
    }
}

/// Pack a list of files into one archive buffer.
///
/// Stage one encodes every file into the payload accumulator while
/// recording each file's encoded size and payload-relative offset; stage
/// two measures the directory table; stage three serializes the directory
/// with absolute offsets and appends the payload.  Paths must be
/// non-empty (a discovered file always has a name) and short enough for
/// the four-byte path-length field.
pub fn pack_archive(files: &Vec<FileData>) -> (out: Vec<u8>)
    requires
        forall|i: int| 0 <= i < files@.len() ==> 1 <= (#[trigger] files@[i]).path@.len()
            < 0x4000_0000,
    ensures
        out@ == archive_bytes(views_of(files@)),
{
    let ghost fv = views_of(files@);
    let ghost n = files@.len() as int;

    // Stage one: encode every file, recording sizes and relative offsets.
    let mut payload: Vec<u8> = Vec::new();
    let mut sizes: Vec<u64> = Vec::new();
    let mut rel: Vec<u64> = Vec::new();
    let mut idx: usize = 0;
    while idx < files.len()
        invariant
            fv == views_of(files@),
            n == files@.len() as int,
            0 <= idx <= n,
            payload@ == payload_bytes(fv, idx as int),
            sizes@.len() == idx && rel@.len() == idx,
            forall|k: int| 0 <= k < idx ==> #[trigger] sizes@[k] == rle_bytes(
                fv[k].contents,
            ).len(),
            forall|k: int| 0 <= k < idx ==> #[trigger] rel@[k] == payload_len(fv, k),
        decreases n - idx,
    {
        proof {
            lemma_payload_len(fv, idx as int);
        }
        let mut encoded: Vec<u8> = rle_encode(files[idx].contents.as_slice());
        sizes.push(encoded.len() as u64);
        rel.push(payload.len() as u64);
        payload.append(&mut encoded);
        idx = idx + 1;
    }

    // Stage two: measure the directory table (offsets do not change its
    // size, so zero stands in for them here).
    let mut stub: Vec<u8> = u64_to_le_bytes(files.len() as u64);
    idx = 0;
    while idx < files.len()
        invariant
            fv == views_of(files@),
            n == files@.len() as int,
            forall|i: int| 0 <= i < files@.len() ==> 1 <= (#[trigger] files@[i]).path@.len()
                < 0x4000_0000,
            0 <= idx <= n,
            stub@.len() == dir_len(fv, idx as int),
        decreases n - idx,
    {
        proof {
            lemma_encode_utf8_len(files@[idx as int].path@);
        }
        let pbytes: &[u8] = files[idx].path.as_str().as_bytes();
        let mut lenb: Vec<u8> = u32_to_le_bytes(pbytes.len() as u32);
        stub.append(&mut lenb);
        let mut pv: Vec<u8> = slice_to_vec(pbytes);
        stub.append(&mut pv);
        let mut szb: Vec<u8> = u64_to_le_bytes(0);
        stub.append(&mut szb);
        let mut ofb: Vec<u8> = u64_to_le_bytes(0);
        stub.append(&mut ofb);
        idx = idx + 1;
    }
    let dir_total: usize = stub.len();

    // The directory and payload are about to live in one in-memory
    // buffer; materializing that buffer once shows that its total length,
    // and with it every absolute offset, fits the offset field.
    let mut probe: Vec<u8> = stub;
    let mut payload_copy: Vec<u8> = slice_to_vec(payload.as_slice());
    probe.append(&mut payload_copy);
    let probe_len: usize = probe.len();
    proof {
        lemma_payload_len(fv, n);
        assert(dir_len(fv, n) + payload_len(fv, n) == probe_len as int);
        assert(usize::MAX <= u64::MAX) by (nonlinear_arith);
    }

    // Stage three: the real directory, then the payload.
    let mut out: Vec<u8> = u64_to_le_bytes(files.len() as u64);
    idx = 0;
    while idx < files.len()
        invariant
            fv == views_of(files@),
            n == files@.len() as int,
            forall|i: int| 0 <= i < files@.len() ==> 1 <= (#[trigger] files@[i]).path@.len()
                < 0x4000_0000,
            0 <= idx <= n,
            sizes@.len() == n && rel@.len() == n,
            forall|k: int| 0 <= k < n ==> #[trigger] sizes@[k] == rle_bytes(fv[k].contents).len(),
            forall|k: int| 0 <= k < n ==> #[trigger] rel@[k] == payload_len(fv, k),
            dir_total == dir_len(fv, n),
            dir_len(fv, n) + payload_len(fv, n) <= u64::MAX,
            out@ == directory_bytes(fv, idx as int),
        decreases n - idx,
    {
        proof {
            lemma_encode_utf8_len(files@[idx as int].path@);
            lemma_payload_len(fv, idx as int);
            lemma_len_mono(fv, idx as int, n);
            lemma_len_mono(fv, 0, idx as int);
            lemma_len_mono(fv, idx as int + 1, n);
            lemma_payload_len(fv, idx as int + 1);
        }
        let pbytes: &[u8] = files[idx].path.as_str().as_bytes();
        let mut lenb: Vec<u8> = u32_to_le_bytes(pbytes.len() as u32);
        out.append(&mut lenb);
        let mut pv: Vec<u8> = slice_to_vec(pbytes);
        out.append(&mut pv);
        let mut szb: Vec<u8> = u64_to_le_bytes(sizes[idx]);
        out.append(&mut szb);
        let off: u64 = dir_total as u64 + rel[idx];
        let mut ofb: Vec<u8> = u64_to_le_bytes(off);
        out.append(&mut ofb);
        proof {
            assert(out@ =~= directory_bytes(fv, idx as int) + entry_bytes(
                fv[idx as int].path,
                sizes@[idx as int],
                off,
            ));
        }
        idx = idx + 1;
    }
    out.append(&mut payload);
    proof {
        assert(out@ == archive_bytes(fv));
    }
    out
}

/// Reading the directory back: starting at `pos`, read `n` rows (path
/// length, path bytes, size, offset).  `None` marks a structural fault: a
/// row that reaches past the end of the data, or path bytes that are not
/// UTF-8.  On success, also gives the position where the rows ended.
pub open spec fn parse_entries(data: Seq<u8>, pos: int, n: nat) -> Option<(Seq<EntryView>, int)>
    decreases n,
{
    if n == 0 {
        Some((seq![], pos))
    } else if pos + 4 > data.len() {
        None
    } else {
        let plen = spec_u32_from_le_bytes(data.subrange(pos, pos + 4)) as int;
        if pos + 4 + plen + 16 > data.len() {
            None
        } else {
            let pbytes = data.subrange(pos + 4, pos + 4 + plen);
            if !valid_utf8(pbytes) {
                None
            } else {
                let entry = EntryView {
                    path: decode_utf8(pbytes),
                    size: spec_u64_from_le_bytes(data.subrange(pos + 4 + plen, pos + 4 + plen + 8)),
                    offset: spec_u64_from_le_bytes(
                        data.subrange(pos + 4 + plen + 8, pos + 4 + plen + 16),
                    ),
                };
                match parse_entries(data, pos + 4 + plen + 16, (n - 1) as nat) {
                    None => None,
                    Some(rest) => Some((seq![entry] + rest.0, rest.1)),
                }
            }
        }
    }
}

/// The directory table read from the start of an archive: the entry
/// count, then that many rows.  `None` marks a corrupt archive.
pub open spec fn parse_directory_spec(data: Seq<u8>) -> Option<Seq<EntryView>> {
    if data.len() < 8 {
        None
    } else {
        match parse_entries(data, 8, spec_u64_from_le_bytes(data.subrange(0, 8)) as nat) {
            None => None,
            Some(pr) => Some(pr.0),
        }
    }
}

/// Relies on `String::from_utf8`: it succeeds exactly on valid UTF-8
/// input and returns the string whose bytes are that input.
#[verifier::external_body]
fn string_from_utf8(bytes: Vec<u8>) -> (r: Option<String>)
    ensures
        match r {
            Some(s) => bytes@ == encode_utf8(s@),
            None => !valid_utf8(bytes@),
        },
{
    String::from_utf8(bytes).ok()
}

/// Read the directory table of an archive.
///
/// Succeeds exactly when the data holds an eight-byte entry count and
/// that many well-formed rows; every structural fault is
/// `CorruptArchive`.  Offsets and sizes are reported as stored; whether
/// they point at sound payload regions is the extraction step's concern.
pub fn parse_directory(data: &[u8]) -> (r: Result<Vec<FileEntry>, ArchiveError>)
    ensures
        match r {
            Ok(entries) => parse_directory_spec(data@) == Some(entry_views(entries@)),
            Err(e) => e == ArchiveError::CorruptArchive && parse_directory_spec(data@) is None,
        },
{
    let ghost d = data@;
    if data.len() < 8 {
        return Err(ArchiveError::CorruptArchive);
    }
    let count: u64 = u64_from_le_bytes(slice_subrange(data, 0, 8));
    let mut entries: Vec<FileEntry> = Vec::new();
    let mut pos: usize = 8;
    let mut k: u64 = 0;
    while k < count
        invariant
            d == data@,
            d.len() >= 8,
            8 <= pos <= d.len(),
            0 <= k <= count,
            count == spec_u64_from_le_bytes(d.subrange(0, 8)),
            (match parse_entries(d, pos as int, (count - k) as nat) {
                Option::None => parse_entries(d, 8, count as nat) is None,
                Option::Some(pr) => parse_entries(d, 8, count as nat) == Some(
                    (entry_views(entries@) + pr.0, pr.1),
                ),
            }),
        decreases count - k,
    {
        let ghost m = (count - k) as nat;
        if data.len() - pos < 4 {
            proof {
                assert(parse_entries(d, pos as int, m) is None);
            }
            return Err(ArchiveError::CorruptArchive);
        }
        let plen32: u32 = u32_from_le_bytes(slice_subrange(data, pos, pos + 4));
        let plen: usize = plen32 as usize;
        if data.len() - pos - 4 < plen || data.len() - pos - 4 - plen < 16 {
            proof {
                assert(parse_entries(d, pos as int, m) is None);
            }
            return Err(ArchiveError::CorruptArchive);
        }
        let pvec: Vec<u8> = slice_to_vec(slice_subrange(data, pos + 4, pos + 4 + plen));
        let ghost pbytes = d.subrange(pos as int + 4, pos as int + 4 + plen as int);
        let path: String = match string_from_utf8(pvec) {
            Option::Some(s) => s,
            Option::None => {
                proof {
                    assert(parse_entries(d, pos as int, m) is None);
                }
                return Err(ArchiveError::CorruptArchive);
            },
        };
        proof {
            vstd::utf8::encode_utf8_valid_utf8(path@);
            vstd::utf8::encode_utf8_decode_utf8(path@);
        }
        let size: u64 = u64_from_le_bytes(
            slice_subrange(data, pos + 4 + plen, pos + 4 + plen + 8),
        );
        let offset: u64 = u64_from_le_bytes(
            slice_subrange(data, pos + 4 + plen + 8, pos + 4 + plen + 16),
        );
        let ghost ev = EntryView { path: path@, size: size, offset: offset };
        let ghost old_entries = entries@;
        entries.push(FileEntry { path: path, size: size, offset: offset });
        pos = pos + 4 + plen + 16;
        k = k + 1;
        proof {
            assert(entry_views(entries@) =~= entry_views(old_entries) + seq![ev]);
            match parse_entries(d, pos as int, (count - k) as nat) {
                Option::None => {
                    assert(parse_entries(d, 8, count as nat) is None);
                },
                Option::Some(pr) => {
                    assert((entry_views(old_entries) + (seq![ev] + pr.0)) =~= (entry_views(
                        old_entries,
                    ) + seq![ev]) + pr.0);
                },
            }
        }
    }
    proof {
        assert(entry_views(entries@) + seq![] =~= entry_views(entries@));
    }
    Ok(entries)
}

/// A parent-directory segment (`..`) stands at index `i` of the path:
/// two dots bounded by the string ends or by separators.
pub open spec fn dotdot_at(p: Seq<char>, i: int) -> bool {
    &&& 0 <= i
    &&& i + 2 <= p.len()
    &&& p[i] == '.'
    &&& p[i + 1] == '.'
    &&& (i == 0 || p[i - 1] == '/')
    &&& (i + 2 == p.len() || p[i + 2] == '/')
}

/// A stored path that cannot escape the output root: non-empty, not
/// absolute, and without parent-directory segments.
pub open spec fn safe_path(p: Seq<char>) -> bool {
    &&& p.len() > 0
    &&& p[0] != '/'
    &&& forall|i: int| !dotdot_at(p, i)
}

/// Decide [`safe_path`] for a stored path.
pub fn is_safe_path(path: &String) -> (r: bool)
    ensures
        r == safe_path(path@),
{
    let p: &str = path.as_str();
    let n: usize = p.unicode_len();
    if n == 0 {
        return false;
    }
    if p.get_char(0) == '/' {
        return false;
    }
    let mut i: usize = 0;
    while i < n
        invariant
            p@ == path@,
            n == p@.len(),
            n > 0,
            p@[0] != '/',
            0 <= i <= n,
            forall|j: int| j < i ==> !dotdot_at(p@, j),
        decreases n - i,
    {
        if n - i >= 2 && p.get_char(i) == '.' && p.get_char(i + 1) == '.' && (i == 0 || p.get_char(
            i - 1,
        ) == '/') && (n - i == 2 || p.get_char(i + 2) == '/') {
            proof {
                assert(dotdot_at(p@, i as int));
            }
            return false;
        }
        i = i + 1;
    }
    true
}

/// What one directory entry yields from the archive: its payload region
/// decoded, or the structural fault found on the way.  An escaping path
/// is refused before any byte of the region is touched.
pub open spec fn entry_extract(data: Seq<u8>, e: EntryView) -> Result<Seq<u8>, ArchiveError> {
    if !safe_path(e.path) {
        Err(ArchiveError::UnsafePath)
    } else if e.offset + e.size > data.len() {
        Err(ArchiveError::CorruptArchive)
    } else if e.size as int % 5 != 0 {
        Err(ArchiveError::CorruptArchive)
    } else {
        Ok(
            decoded_bytes(
                parse_records(data.subrange(e.offset as int, e.offset as int + e.size as int)),
            ),
        )
    }
}

/// Read and decode one entry's payload region.
///
/// Seeking past the end of the archive, a region that is no whole number
/// of run records, and an escaping path are each refused, exactly as
/// [`entry_extract`] says.
pub fn extract_entry(data: &[u8], entry: &FileEntry) -> (r: Result<Vec<u8>, ArchiveError>)
    ensures
        match r {
            Ok(contents) => entry_extract(data@, entry@) == Ok::<Seq<u8>, ArchiveError>(contents@),
            Err(e) => entry_extract(data@, entry@) == Err::<Seq<u8>, ArchiveError>(e),
        },
{
    if !is_safe_path(&entry.path) {
        return Err(ArchiveError::UnsafePath);
    }
    if entry.offset > data.len() as u64 || entry.size > data.len() as u64 - entry.offset {
        return Err(ArchiveError::CorruptArchive);
    }
    let off: usize = entry.offset as usize;
    let len: usize = entry.size as usize;
    let region: &[u8] = slice_subrange(data, off, off + len);
    match rle_decode(region) {
        Ok(contents) => Ok(contents),
        Err(e) => Err(e),
    }
}

/// Unpacking a parsed directory, entry by entry in table order; the
/// first fault aborts the whole run.
pub open spec fn unpack_entries(data: Seq<u8>, es: Seq<EntryView>) -> Result<
    Seq<FileDataView>,
    ArchiveError,
>
    decreases es.len(),
{
    if es.len() == 0 {
        Ok(seq![])
    } else {
        match entry_extract(data, es[0]) {
            Err(e) => Err(e),
            Ok(contents) => match unpack_entries(data, es.drop_first()) {
                Err(e) => Err(e),
                Ok(rest) => Ok(seq![FileDataView { path: es[0].path, contents: contents }] + rest),
            },
        }
    }
}

/// What unpacking a whole archive yields: the directory read back, then
/// every entry's region decoded, in table order.
pub open spec fn unpack_spec(data: Seq<u8>) -> Result<Seq<FileDataView>, ArchiveError> {
    match parse_directory_spec(data) {
        None => Err(ArchiveError::CorruptArchive),
        Some(es) => unpack_entries(data, es),
    }
}

/// Unpack an archive buffer into its files.
///
/// Parses the directory, then decodes every entry's payload region in
/// table order.  The result is exactly [`unpack_spec`]: all files with
/// their paths and raw contents, or the first structural fault found.
pub fn unpack_archive(data: &[u8]) -> (r: Result<Vec<FileData>, ArchiveError>)
    ensures
        match r {
            Ok(files) => unpack_spec(data@) == Ok::<Seq<FileDataView>, ArchiveError>(
                views_of(files@),
            ),
            Err(e) => unpack_spec(data@) == Err::<Seq<FileDataView>, ArchiveError>(e),
        },
{
    let ghost d = data@;
    let entries: Vec<FileEntry> = match parse_directory(data) {
        Ok(es) => es,
        Err(e) => {
            return Err(e);
        },
    };
    let ghost evs = entry_views(entries@);
    let mut out: Vec<FileData> = Vec::new();
    let mut j: usize = 0;
    proof {
        assert(evs.skip(0) =~= evs);
        match unpack_entries(d, evs) {
            Result::Err(e) => {},
            Result::Ok(rest) => {
                assert(views_of(out@) + rest =~= rest);
            },
        }
    }
    while j < entries.len()
        invariant
            d == data@,
            evs == entry_views(entries@),
            parse_directory_spec(d) == Some(evs),
            evs.len() == entries@.len(),
            0 <= j <= entries@.len(),
            (match unpack_entries(d, evs.skip(j as int)) {
                Result::Err(e) => unpack_entries(d, evs) == Err::<Seq<FileDataView>, ArchiveError>(
                    e,
                ),
                Result::Ok(rest) => unpack_entries(d, evs) == Ok::<Seq<FileDataView>, ArchiveError>(
                    views_of(out@) + rest,
                ),
            }),
        decreases entries@.len() - j,
    {
        proof {
            assert(evs.skip(j as int)[0] == evs[j as int]);
            assert(evs.skip(j as int).drop_first() =~= evs.skip(j as int + 1));
        }
        let contents: Vec<u8> = match extract_entry(data, &entries[j]) {
            Ok(v) => v,
            Err(e) => {
                return Err(e);
            },
        };
        let ghost old_out = out@;
        let ghost c = contents@;
        out.push(FileData { path: entries[j].path.clone(), contents: contents });
        j = j + 1;
        proof {
            assert(views_of(out@) =~= views_of(old_out) + seq![
                FileDataView { path: evs[j - 1].path, contents: c },
            ]);
            match unpack_entries(d, evs.skip(j as int)) {
                Result::Err(e) => {},
                Result::Ok(rest) => {
                    assert((views_of(old_out) + (seq![
                        FileDataView { path: evs[j - 1].path, contents: c },
                    ] + rest)) =~= (views_of(old_out) + seq![
                        FileDataView { path: evs[j - 1].path, contents: c },
                    ]) + rest);
                },
            }
        }
    }
    proof {
        assert(evs.skip(entries@.len() as int) =~= Seq::<EntryView>::empty());
        assert(views_of(out@) + seq![] =~= views_of(out@));
    }
    Ok(out)
}

/// The bounds under which an archive's stored fields are faithful: every
/// path fits the four-byte length field and the whole buffer fits the
/// eight-byte offset field.  [`pack_archive`] always builds buffers that
/// satisfy this, since they live in memory.
pub open spec fn archive_fits(files: Seq<FileDataView>) -> bool {
    &&& forall|i: int| 0 <= i < files.len() ==> encode_utf8((#[trigger] files[i]).path).len()
        < 0x1_0000_0000
    &&& dir_len(files, files.len() as int) + payload_len(files, files.len() as int) <= u64::MAX
}

/// The directory rows that describe a packed file list.
pub open spec fn entries_of(files: Seq<FileDataView>) -> Seq<EntryView> {
    Seq::new(
        files.len(),
        |i: int|
            EntryView {
                path: files[i].path,
                size: rle_bytes(files[i].contents).len() as u64,
                offset: entry_offset(files, i) as u64,
            },
    )
}

/// Within a packed archive, row `k` of the directory sits exactly at
/// `[dir_len(k), dir_len(k + 1))`.
proof fn lemma_entry_slice(files: Seq<FileDataView>, k: int)
    requires
        0 <= k < files.len(),
    ensures
        archive_bytes(files).subrange(dir_len(files, k), dir_len(files, k + 1)) == entry_bytes(
            files[k].path,
            rle_bytes(files[k].contents).len() as u64,
            entry_offset(files, k) as u64,
        ),
{
    let n = files.len() as int;
    let d = directory_bytes(files, n);
    let e = entry_bytes(
        files[k].path,
        rle_bytes(files[k].contents).len() as u64,
        entry_offset(files, k) as u64,
    );
    lemma_dir_len(files, k);
    lemma_dir_len(files, k + 1);
    lemma_dir_len(files, n);
    lemma_len_mono(files, k + 1, n);
    lemma_dir_prefix(files, k + 1, n);
    assert(directory_bytes(files, k + 1) == directory_bytes(files, k) + e);
    assert(e.len() == dir_len(files, k + 1) - dir_len(files, k));
    assert(archive_bytes(files).subrange(dir_len(files, k), dir_len(files, k + 1)) =~= d.subrange(
        dir_len(files, k),
        dir_len(files, k + 1),
    ));
    assert(d.subrange(dir_len(files, k), dir_len(files, k + 1)) =~= directory_bytes(
        files,
        k + 1,
    ).subrange(dir_len(files, k), dir_len(files, k + 1)));
    assert(directory_bytes(files, k + 1).subrange(dir_len(files, k), dir_len(files, k + 1)) =~= e);
}

/// Within a packed archive, file `k`'s run records sit exactly at
/// `[entry_offset(k), entry_offset(k) + size_k)`.
proof fn lemma_payload_slice(files: Seq<FileDataView>, k: int)
    requires
        0 <= k < files.len(),
    ensures
        archive_bytes(files).subrange(
            entry_offset(files, k),
            entry_offset(files, k) + rle_bytes(files[k].contents).len(),
        ) == rle_bytes(files[k].contents),
{
    let n = files.len() as int;
    let d = directory_bytes(files, n);
    let p = payload_bytes(files, n);
    let r = rle_bytes(files[k].contents);
    lemma_dir_len(files, n);
    lemma_payload_len(files, k);
    lemma_payload_len(files, k + 1);
    lemma_payload_len(files, n);
    lemma_len_mono(files, k + 1, n);
    lemma_payload_prefix(files, k + 1, n);
    assert(payload_bytes(files, k + 1) == payload_bytes(files, k) + r);
    assert(archive_bytes(files).subrange(
        entry_offset(files, k),
        entry_offset(files, k) + r.len(),
    ) =~= p.subrange(payload_len(files, k), payload_len(files, k) + r.len()));
    assert(p.subrange(payload_len(files, k), payload_len(files, k) + r.len()) =~= payload_bytes(
        files,
        k + 1,
    ).subrange(payload_len(files, k), payload_len(files, k) + r.len()));
    assert(payload_bytes(files, k + 1).subrange(
        payload_len(files, k),
        payload_len(files, k) + r.len(),
    ) =~= r);
}

/// Reading one directory row back from any data that carries row `k`'s
/// exact bytes at its place and reaches at least to the row's end.
proof fn lemma_parse_entry_step(data: Seq<u8>, files: Seq<FileDataView>, k: int, m: nat)
    requires
        archive_fits(files),
        0 <= k < files.len(),
        m >= 1,
        dir_len(files, k + 1) <= data.len(),
        data.subrange(dir_len(files, k), dir_len(files, k + 1)) == entry_bytes(
            files[k].path,
            rle_bytes(files[k].contents).len() as u64,
            entry_offset(files, k) as u64,
        ),
    ensures
        parse_entries(data, dir_len(files, k), m) == (match parse_entries(
            data,
            dir_len(files, k + 1),
            (m - 1) as nat,
        ) {
            Option::None => Option::<(Seq<EntryView>, int)>::None,
            Option::Some(rest) => Option::Some((seq![entries_of(files)[k]] + rest.0, rest.1)),
        }),
{
    lemma_auto_spec_u32_to_from_le_bytes();
    lemma_auto_spec_u64_to_from_le_bytes();
    let n = files.len() as int;
    let pos = dir_len(files, k);
    let pb = encode_utf8(files[k].path);
    let plen = pb.len() as int;
    let size_v = rle_bytes(files[k].contents).len() as u64;
    let off_v = entry_offset(files, k) as u64;
    let e = entry_bytes(files[k].path, size_v, off_v);
    lemma_dir_len(files, k);
    lemma_dir_len(files, k + 1);
    assert(dir_len(files, k + 1) == pos + 20 + plen);
    // The four reads of the row, each a slice of the given row bytes.
    assert(data.subrange(pos, pos + 4) =~= e.subrange(0, 4));
    assert(e.subrange(0, 4) =~= spec_u32_to_le_bytes(pb.len() as u32));
    assert(plen < 0x1_0000_0000);
    assert(spec_u32_from_le_bytes(data.subrange(pos, pos + 4)) == pb.len() as u32);
    assert(data.subrange(pos + 4, pos + 4 + plen) =~= e.subrange(4, 4 + plen));
    assert(e.subrange(4, 4 + plen) =~= pb);
    vstd::utf8::encode_utf8_valid_utf8(files[k].path);
    vstd::utf8::encode_utf8_decode_utf8(files[k].path);
    assert(data.subrange(pos + 4 + plen, pos + 4 + plen + 8) =~= e.subrange(4 + plen, 12 + plen));
    assert(e.subrange(4 + plen, 12 + plen) =~= spec_u64_to_le_bytes(size_v));
    assert(data.subrange(pos + 4 + plen + 8, pos + 4 + plen + 16) =~= e.subrange(
        12 + plen,
        20 + plen,
    ));
    assert(e.subrange(12 + plen, 20 + plen) =~= spec_u64_to_le_bytes(off_v));
    assert(entries_of(files)[k] == EntryView { path: files[k].path, size: size_v, offset: off_v });
}

/// The whole directory of a packed archive reads back as
/// [`entries_of`], ending exactly where the payload begins.
proof fn lemma_parse_entries_of_archive(files: Seq<FileDataView>, k: int)
    requires
        archive_fits(files),
        0 <= k <= files.len(),
    ensures
        parse_entries(
            archive_bytes(files),
            dir_len(files, k),
            (files.len() - k) as nat,
        ) == Some((entries_of(files).skip(k), dir_len(files, files.len() as int))),
    decreases files.len() - k,
{
    let n = files.len() as int;
    let a = archive_bytes(files);
    if k == n {
        assert(entries_of(files).skip(n) =~= Seq::<EntryView>::empty());
    } else {
        lemma_dir_len(files, n);
        lemma_payload_len(files, n);
        lemma_len_mono(files, k + 1, n);
        lemma_entry_slice(files, k);
        lemma_parse_entry_step(a, files, k, (n - k) as nat);
        lemma_parse_entries_of_archive(files, k + 1);
        assert(seq![entries_of(files)[k]] + entries_of(files).skip(k + 1) =~= entries_of(
            files,
        ).skip(k));
    }
}

/// The directory table of a packed archive parses back exactly.
proof fn lemma_parse_directory_of_archive(files: Seq<FileDataView>)
    requires
        archive_fits(files),
    ensures
        parse_directory_spec(archive_bytes(files)) == Some(entries_of(files)),
{
    lemma_auto_spec_u64_to_from_le_bytes();
    let n = files.len() as int;
    let a = archive_bytes(files);
    lemma_dir_len(files, n);
    lemma_payload_len(files, n);
    assert(a.len() >= 8);
    lemma_dir_prefix(files, 0, n);
    assert(a.subrange(0, 8) =~= directory_bytes(files, n).take(8));
    assert(a.subrange(0, 8) == spec_u64_to_le_bytes(n as u64));
    assert(spec_u64_from_le_bytes(a.subrange(0, 8)) == n as u64);
    assert((n as u64) as nat == files.len());
    lemma_parse_entries_of_archive(files, 0);
    assert(entries_of(files).skip(0) =~= entries_of(files));
}

/// Offset disjointness: in a packed archive the directory reads back
/// exactly, the first payload region starts right after the directory,
/// each region ends where the next begins, the last one ends at the end
/// of the buffer, and the regions are pairwise disjoint — header and
/// regions together tile the whole archive.
pub proof fn lemma_offset_disjointness(files: Seq<FileDataView>)
    requires
        archive_fits(files),
    ensures
        parse_directory_spec(archive_bytes(files)) == Some(entries_of(files)),
        entries_of(files).len() == files.len(),
        forall|i: int| 0 <= i < files.len() ==> (#[trigger] entries_of(files)[i]).offset
            == dir_len(files, files.len() as int) + payload_len(files, i),
        forall|i: int| 0 <= i < files.len() ==> (#[trigger] entries_of(files)[i]).size
            == rle_bytes(files[i].contents).len(),
        files.len() > 0 ==> entries_of(files)[0].offset == dir_len(files, files.len() as int),
        forall|i: int| 0 <= i < files.len() - 1 ==> (#[trigger] entries_of(files)[i]).offset
            + entries_of(files)[i].size == entries_of(files)[i + 1].offset,
        files.len() > 0 ==> entries_of(files)[files.len() - 1].offset + entries_of(files)[files.len()
            - 1].size == archive_bytes(files).len(),
        archive_bytes(files).len() == dir_len(files, files.len() as int) + payload_len(
            files,
            files.len() as int,
        ),
        forall|i: int, j: int| 0 <= i < j < files.len() ==> (#[trigger] entries_of(files)[i]).offset
            + entries_of(files)[i].size <= (#[trigger] entries_of(files)[j]).offset,
{
    let n = files.len() as int;
    lemma_parse_directory_of_archive(files);
    lemma_dir_len(files, n);
    lemma_payload_len(files, n);
    assert forall|i: int| 0 <= i < n implies (#[trigger] entries_of(files)[i]).offset == dir_len(
        files,
        n,
    ) + payload_len(files, i) && entries_of(files)[i].size == rle_bytes(
        files[i].contents,
    ).len() by {
        lemma_payload_len(files, i);
        lemma_payload_len(files, i + 1);
        lemma_len_mono(files, i + 1, n);
        lemma_len_mono(files, 0, i);
    }
    assert forall|i: int| 0 <= i < n - 1 implies (#[trigger] entries_of(files)[i]).offset
        + entries_of(files)[i].size == entries_of(files)[i + 1].offset by {
        lemma_payload_len(files, i);
        lemma_payload_len(files, i + 1);
        lemma_len_mono(files, i + 1, n);
        lemma_len_mono(files, 0, i);
    }
    if n > 0 {
        lemma_payload_len(files, n - 1);
        lemma_len_mono(files, 0, n - 1);
    }
    assert forall|i: int, j: int| 0 <= i < j < n implies (#[trigger] entries_of(files)[i]).offset
        + entries_of(files)[i].size <= (#[trigger] entries_of(files)[j]).offset by {
        lemma_payload_len(files, i);
        lemma_payload_len(files, i + 1);
        lemma_len_mono(files, i + 1, j);
        lemma_len_mono(files, j, n);
        lemma_len_mono(files, 0, i);
    }
}

/// Every entry of a packed archive extracts back to its file.
proof fn lemma_unpack_entries_of_archive(files: Seq<FileDataView>, k: int)
    requires
        archive_fits(files),
        0 <= k <= files.len(),
        forall|i: int| 0 <= i < files.len() ==> safe_path((#[trigger] files[i]).path),
        forall|i: int| 0 <= i < files.len() ==> crate::codec::runs_bounded(
            (#[trigger] files[i]).contents,
        ),
    ensures
        unpack_entries(archive_bytes(files), entries_of(files).skip(k)) == Ok::<
            Seq<FileDataView>,
            ArchiveError,
        >(files.skip(k)),
    decreases files.len() - k,
{
    let n = files.len() as int;
    let a = archive_bytes(files);
    let es = entries_of(files).skip(k);
    if k == n {
        assert(es =~= Seq::<EntryView>::empty());
        assert(files.skip(n) =~= Seq::<FileDataView>::empty());
    } else {
        let e = entries_of(files)[k];
        assert(es[0] == e);
        lemma_dir_len(files, n);
        lemma_payload_len(files, n);
        lemma_payload_len(files, k);
        lemma_payload_len(files, k + 1);
        lemma_len_mono(files, k + 1, n);
        lemma_len_mono(files, 0, k);
        let r = rle_bytes(files[k].contents);
        crate::codec::lemma_rle_records_count(files[k].contents);
        assert(e.offset as int == entry_offset(files, k));
        assert(e.size as int == r.len());
        assert(e.offset + e.size <= a.len());
        lemma_payload_slice(files, k);
        assert(a.subrange(e.offset as int, e.offset as int + e.size as int) == r);
        crate::codec::lemma_rle_round_trip(files[k].contents);
        assert(entry_extract(a, e) == Ok::<Seq<u8>, ArchiveError>(files[k].contents));
        lemma_unpack_entries_of_archive(files, k + 1);
        assert(es.drop_first() =~= entries_of(files).skip(k + 1));
        assert(FileDataView { path: e.path, contents: files[k].contents } == files[k]);
        assert(seq![files[k]] + files.skip(k + 1) =~= files.skip(k));
    }
}

/// Pack/unpack round trip: unpacking a packed archive yields every file
/// back, with its path and its exact contents.  Paths must be safe (an
/// unpack refuses escaping paths by design) and runs must fit the
/// 32-bit count field (a longer run wraps, the deliberate legacy limit).
pub proof fn lemma_pack_unpack_round_trip(files: Seq<FileDataView>)
    requires
        archive_fits(files),
        forall|i: int| 0 <= i < files.len() ==> safe_path((#[trigger] files[i]).path),
        forall|i: int| 0 <= i < files.len() ==> crate::codec::runs_bounded(
            (#[trigger] files[i]).contents,
        ),
    ensures
        unpack_spec(archive_bytes(files)) == Ok::<Seq<FileDataView>, ArchiveError>(files),
{
    lemma_parse_directory_of_archive(files);
    lemma_unpack_entries_of_archive(files, 0);
    assert(entries_of(files).skip(0) =~= entries_of(files));
    assert(files.skip(0) =~= files);
}

/// Parsing a directory truncated anywhere before its end fails.
proof fn lemma_truncated_entries(files: Seq<FileDataView>, cut: int, k: int)
    requires
        archive_fits(files),
        0 <= k,
        dir_len(files, k) <= cut < dir_len(files, files.len() as int),
    ensures
        parse_entries(
            archive_bytes(files).take(cut),
            dir_len(files, k),
            (files.len() - k) as nat,
        ) is None,
    decreases files.len() - k,
{
    let n = files.len() as int;
    let a = archive_bytes(files);
    let t = a.take(cut);
    lemma_dir_len(files, n);
    lemma_payload_len(files, n);
    if k >= n {
        lemma_len_mono(files, n, k);
        assert(false);
    }
    let pos = dir_len(files, k);
    lemma_dir_len(files, k);
    lemma_dir_len(files, k + 1);
    lemma_len_mono(files, k + 1, n);
    assert(t.len() == cut);
    lemma_entry_slice(files, k);
    let pb = encode_utf8(files[k].path);
    let plen = pb.len() as int;
    let e = entry_bytes(
        files[k].path,
        rle_bytes(files[k].contents).len() as u64,
        entry_offset(files, k) as u64,
    );
    lemma_auto_spec_u32_to_from_le_bytes();
    lemma_auto_spec_u64_to_from_le_bytes();
    assert(e.len() == 20 + plen);
    if cut < pos + 4 {
        assert(parse_entries(t, pos, (n - k) as nat) is None);
    } else if cut < dir_len(files, k + 1) {
        assert(t.subrange(pos, pos + 4) =~= a.subrange(pos, pos + 4));
        assert(a.subrange(pos, pos + 4) =~= a.subrange(pos, dir_len(files, k + 1)).subrange(0, 4));
        assert(e.subrange(0, 4) =~= spec_u32_to_le_bytes(pb.len() as u32));
        assert(spec_u32_from_le_bytes(t.subrange(pos, pos + 4)) == pb.len() as u32);
        assert(pos + 4 + plen + 16 > t.len());
        assert(parse_entries(t, pos, (n - k) as nat) is None);
    } else {
        assert(t.subrange(pos, dir_len(files, k + 1)) =~= a.subrange(pos, dir_len(files, k + 1)));
        lemma_parse_entry_step(t, files, k, (n - k) as nat);
        lemma_truncated_entries(files, cut, k + 1);
    }
}

/// Corrupt header rejection: an archive truncated to fewer bytes than
/// its directory table needs is refused as `CorruptArchive`, whatever
/// the truncation point.
pub proof fn lemma_truncated_archive_rejected(files: Seq<FileDataView>, cut: int)
    requires
        archive_fits(files),
        0 <= cut < dir_len(files, files.len() as int),
    ensures
        unpack_spec(archive_bytes(files).take(cut)) == Err::<Seq<FileDataView>, ArchiveError>(
            ArchiveError::CorruptArchive,
        ),
{
    let n = files.len() as int;
    let a = archive_bytes(files);
    let t = a.take(cut);
    lemma_dir_len(files, n);
    lemma_payload_len(files, n);
    assert(t.len() == cut);
    if cut < 8 {
        assert(parse_directory_spec(t) is None);
    } else {
        lemma_auto_spec_u64_to_from_le_bytes();
        lemma_dir_prefix(files, 0, n);
        assert(t.subrange(0, 8) =~= a.subrange(0, 8));
        assert(a.subrange(0, 8) =~= directory_bytes(files, n).take(8));
        assert(a.subrange(0, 8) == spec_u64_to_le_bytes(n as u64));
        assert(spec_u64_from_le_bytes(t.subrange(0, 8)) == n as u64);
        assert((n as u64) as nat == files.len());
        lemma_truncated_entries(files, cut, 0);
    }
}

} // verus!

