//! A text armor for an archive buffer: a signature line, then the
//! archive bytes as one base64 line.  This is an auxiliary rendering
//! for carrying an archive through text-only channels; the archive file
//! itself is the raw container buffer (see the container module), whose
//! byte-exact layout the stored offsets index.  Reading the armor
//! tolerates the base64 text being split across any number of lines.

use vstd::prelude::*;

verus! {

use vstd::string::StringExecFns;
use crate::models::ArchiveError;
use base64::Engine;

/// What base64's standard-alphabet, padded encode returns for the given
/// bytes; a pure function of the bytes.
pub uninterp spec fn base64_of(data: Seq<u8>) -> Seq<char>;

/// What base64's standard-alphabet, padded decode accepts and returns:
/// `Some` exactly on text the engine accepts; a pure function of the
/// text.
pub uninterp spec fn base64_decoded(text: Seq<char>) -> Option<Seq<u8>>;

/// Relies on base64's `STANDARD` engine encode: deterministic in the
/// bytes, and its canonical padded output is exactly what the same
/// engine's decode accepts and inverts.
#[verifier::external_body]
fn b64_encode(data: &Vec<u8>) -> (r: String)
    ensures
        r@ == base64_of(data@),
        base64_decoded(r@) == Some(data@),
{
    base64::engine::general_purpose::STANDARD.encode(data)
}

/// Relies on base64's `STANDARD` engine decode: deterministic in the
/// text, succeeding exactly where the engine accepts it.
#[verifier::external_body]
fn b64_decode(text: &str) -> (r: Option<Vec<u8>>)
    ensures
        match r {
            Some(v) => base64_decoded(text@) == Some(v@),
            None => base64_decoded(text@) is None,
        },
{
    base64::engine::general_purpose::STANDARD.decode(text).ok()
}

/// The full armor text of an archive buffer: the signature line, then
/// the archive bytes in base64, each line newline-terminated.
pub open spec fn text_form(archive: Seq<u8>) -> Seq<char> {
    "RUSTCOMP"@ + seq!['\n'] + base64_of(archive) + seq!['\n']
}

/// Render an archive buffer as its text armor.
///
/// The second promise hands callers the round trip: decoding the base64
/// part gives the archive bytes back.
pub fn encode_container(archive: &Vec<u8>) -> (r: String)
    ensures
        r@ == text_form(archive@),
        base64_decoded(base64_of(archive@)) == Some(archive@),
{
    let mut out: String = "RUSTCOMP".to_owned();
    out.append("\n");
    let b: String = b64_encode(archive);
    out.append(b.as_str());
    out.append("\n");
    proof {
        reveal_strlit("\n");
        assert(out@ =~= text_form(archive@));
    }
    out
}

/// The base64 part of armor text held as lines: every line after the
/// signature, joined in order (the line with index `upto` not yet
/// included).
pub open spec fn joined_tail(lines: Seq<String>, upto: int) -> Seq<char>
    decreases upto,
{
    if upto <= 1 {
        seq![]
    } else {
        joined_tail(lines, upto - 1) + lines[upto - 1]@
    }
}

/// What reading armor text as lines yields: the archive bytes, or
/// `CorruptArchive` when the signature line is wrong or the base64 text
/// is rejected.
pub open spec fn container_text_parse(lines: Seq<String>) -> Result<Seq<u8>, ArchiveError> {
    if lines.len() == 0 || lines[0]@ != "RUSTCOMP"@ {
        Err(ArchiveError::CorruptArchive)
    } else {
        match base64_decoded(joined_tail(lines, lines.len() as int)) {
            None => Err(ArchiveError::CorruptArchive),
            Some(data) => Ok(data),
        }
    }
}

/// Read an archive buffer back from its armor text, given as lines
/// without their newlines: checks the signature line, joins the rest,
/// and decodes the base64 text into the archive bytes.
pub fn decode_container(lines: &Vec<String>) -> (r: Result<Vec<u8>, ArchiveError>)
    ensures
        match r {
            Ok(archive) => container_text_parse(lines@) == Ok::<Seq<u8>, ArchiveError>(archive@),
            Err(e) => container_text_parse(lines@) == Err::<Seq<u8>, ArchiveError>(e),
        },
{
    let signature: String = "RUSTCOMP".to_owned();
    if lines.len() == 0 {
        return Err(ArchiveError::CorruptArchive);
    }
    if !(lines[0] == signature) {
        return Err(ArchiveError::CorruptArchive);
    }
    let mut joined: String = String::new();
    let mut i: usize = 1;
    while i < lines.len()
        invariant
            1 <= i <= lines@.len(),
            lines@.len() >= 1,
            joined@ == joined_tail(lines@, i as int),
        decreases lines@.len() - i,
    {
        joined.append(lines[i].as_str());
        i = i + 1;
    }
    match b64_decode(joined.as_str()) {
        Some(archive) => Ok(archive),
        None => Err(ArchiveError::CorruptArchive),
    }
}

} // verus!
