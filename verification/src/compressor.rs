//! The archiver's front-line type: the pair of paths one pack or unpack
//! run works on, and the pure text helpers behind the interactive file
//! search and the listing display.

use vstd::prelude::*;

verus! {

use vstd::string::StrSliceExecFns;
use vstd::string::StringExecFns;

/// One pack or unpack job: where to read and where to write.  The
/// file-system work itself happens outside the library; this type only
/// carries the two resolved paths.
pub struct Compressor {
    input_path: String,
    output_path: String,
}

impl View for Compressor {
    type V = (Seq<char>, Seq<char>);

    closed spec fn view(&self) -> (Seq<char>, Seq<char>) {
        (self.input_path@, self.output_path@)
    }
}

impl Compressor {
    /// A job reading from `input_path` and writing to `output_path`.
    pub fn new(input_path: String, output_path: String) -> (r: Compressor)
        ensures
            r@ == (input_path@, output_path@),
    {
        Compressor { input_path, output_path }
    }

    /// The path this job reads from.
    pub fn input_path(&self) -> (r: &String)
        ensures
            r@ == self@.0,
    {
        &self.input_path
    }

    /// The path this job writes to.
    pub fn output_path(&self) -> (r: &String)
        ensures
            r@ == self@.1,
    {
        &self.output_path
    }
}

/// What `str::to_lowercase` returns for the given characters; the result
/// depends on the characters alone.
pub uninterp spec fn lower_of(s: Seq<char>) -> Seq<char>;

/// Relies on `str::to_lowercase`: a pure function of the characters, and
/// empty input gives empty output.
#[verifier::external_body]
fn lowercase(s: &str) -> (r: String)
    ensures
        r@ == lower_of(s@),
        s@.len() == 0 ==> r@.len() == 0,
{
    s.to_lowercase()
}

/// `needle` occurs somewhere in `hay` as a contiguous run.
pub open spec fn contains_seq(hay: Seq<char>, needle: Seq<char>) -> bool {
    exists|k: int|
        0 <= k <= hay.len() - needle.len() && #[trigger] hay.subrange(k, k + needle.len() as int)
            == needle
}

/// Whether `needle` stands at position `k` of `hay`.
fn match_at(hay: &str, needle: &str, k: usize) -> (r: bool)
    requires
        k + needle@.len() <= hay@.len(),
        hay@.len() <= usize::MAX,
    ensures
        r == (hay@.subrange(k as int, k as int + needle@.len() as int) == needle@),
{
    let m: usize = needle.unicode_len();
    let mut j: usize = 0;
    while j < m
        invariant
            m == needle@.len(),
            k + m <= hay@.len(),
            hay@.len() <= usize::MAX,
            0 <= j <= m,
            forall|l: int| 0 <= l < j ==> hay@[k + l] == needle@[l],
        decreases m - j,
    {
        if hay.get_char(k + j) != needle.get_char(j) {
            proof {
                assert(hay@.subrange(k as int, k as int + m as int)[j as int] == hay@[k + j]);
            }
            return false;
        }
        j = j + 1;
    }
    proof {
        assert(hay@.subrange(k as int, k as int + m as int) =~= needle@);
    }
    true
}

/// Whether `needle` occurs anywhere in `hay`.
fn contains_str(hay: &String, needle: &String) -> (r: bool)
    ensures
        r == contains_seq(hay@, needle@),
{
    let n: usize = hay.as_str().unicode_len();
    let m: usize = needle.as_str().unicode_len();
    if m > n {
        return false;
    }
    if m == 0 {
        proof {
            assert(hay@.subrange(0, 0 + needle@.len() as int) =~= needle@);
        }
        return true;
    }
    let mut k: usize = 0;
    while k <= n - m
        invariant
            n == hay@.len(),
            m == needle@.len(),
            1 <= m <= n,
            0 <= k <= n - m + 1,
            forall|q: int| 0 <= q < k ==> #[trigger] hay@.subrange(q, q + m as int) != needle@,
        decreases n - k,
    {
        if match_at(hay.as_str(), needle.as_str(), k) {
            proof {
                assert(hay@.subrange(k as int, k as int + m as int) == needle@);
            }
            return true;
        }
        k = k + 1;
    }
    false
}

/// Whether a file name matches a search pattern: the recursive search is
/// case-insensitive and looks for the pattern as a substring of the
/// name.
pub fn name_matches(name: &str, pattern: &str) -> (r: bool)
    ensures
        r == contains_seq(lower_of(name@), lower_of(pattern@)),
{
    let lname: String = lowercase(name);
    let lpattern: String = lowercase(pattern);
    contains_str(&lname, &lpattern)
}

/// The name component of a path: everything after the last `/` (the
/// whole path when it has no separator, empty when it ends with one).
pub open spec fn file_name_spec(p: Seq<char>) -> Seq<char>
    decreases p.len(),
{
    if p.len() == 0 {
        seq![]
    } else if p[p.len() - 1] == '/' {
        seq![]
    } else {
        file_name_spec(p.drop_last()) + seq![p[p.len() - 1]]
    }
}

/// The suffix after the last separator is the name.
proof fn lemma_file_name_suffix(p: Seq<char>, k: int)
    requires
        0 <= k <= p.len(),
        forall|j: int| k <= j < p.len() ==> #[trigger] p[j] != '/',
        k == 0 || p[k - 1] == '/',
    ensures
        file_name_spec(p) == p.subrange(k, p.len() as int),
    decreases p.len(),
{
    let n = p.len() as int;
    if p.len() == 0 {
        assert(p.subrange(0, 0) =~= Seq::<char>::empty());
    } else if p[n - 1] == '/' {
        assert(k == n);
        assert(p.subrange(n, n) =~= Seq::<char>::empty());
    } else {
        assert(k < n);
        let q = p.drop_last();
        assert forall|j: int| k <= j < q.len() implies #[trigger] q[j] != '/' by {
            assert(p[j] != '/');
        }
        if k > 0 {
            assert(q[k - 1] == p[k - 1]);
        }
        lemma_file_name_suffix(q, k);
        assert(q.subrange(k, n - 1) + seq![p[n - 1]] =~= p.subrange(k, n));
        assert(q.subrange(k, n - 1) =~= p.subrange(k, n - 1));
    }
}

/// The name component of a path, for storing a lone packed file under
/// its bare file name.  A path that does not end in a separator always
/// has a non-empty name, and the name never holds a separator.
pub fn file_name_of(path: &String) -> (r: String)
    ensures
        r@ == file_name_spec(path@),
        path@.len() > 0 && path@[path@.len() - 1] != '/' ==> r@.len() > 0,
        forall|j: int| 0 <= j < r@.len() ==> #[trigger] r@[j] != '/',
{
    let p: &str = path.as_str();
    let n: usize = p.unicode_len();
    let mut start: usize = n;
    while start > 0 && p.get_char(start - 1) != '/'
        invariant
            p@ == path@,
            n == p@.len(),
            0 <= start <= n,
            forall|j: int| start <= j < n ==> #[trigger] p@[j] != '/',
        decreases start,
    {
        start = start - 1;
    }
    proof {
        lemma_file_name_suffix(p@, start as int);
    }
    let name: &str = p.substring_char(start, n);
    name.to_owned()
}

/// The text shown in a listing row's name column.
pub open spec fn display_name_spec(name: Seq<char>) -> Seq<char> {
    if name.len() > 30 {
        name.take(27) + seq!['.', '.', '.']
    } else {
        name
    }
}

/// A listing name cut down to the column width: over thirty characters
/// keeps the first twenty-seven and an ellipsis.
pub fn display_name(name: &String) -> (r: String)
    ensures
        r@ == display_name_spec(name@),
{
    let n: usize = name.as_str().unicode_len();
    if n > 30 {
        let head: &str = name.as_str().substring_char(0, 27);
        let mut out: String = head.to_owned();
        proof {
            reveal_strlit("...");
        }
        out.append("...");
        proof {
            assert(out@ =~= display_name_spec(name@));
        }
        out
    } else {
        name.clone()
    }
}

} // verus!
