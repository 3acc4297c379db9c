//! Where resources live: the root directory of the program's assets and the
//! path of a resource below it.

use vstd::prelude::*;
use vstd::string::StrSliceExecFns;

verus! {

/// The error type of the standard library's input and output, carried
/// through unread.
#[verifier::external_type_specification]
#[verifier::external_body]
pub struct ExIoError(std::io::Error);

/// Why a resource could not be loaded.
#[derive(Debug)]
pub enum Error {
    /// Reading the file failed.
    Io(std::io::Error),
    /// The file holds a zero byte, so it cannot be handed on as a C string.
    MalformedFile,
    /// The directory of the running program could not be found.
    NoExePath,
}

impl From<std::io::Error> for Error {
    fn from(other: std::io::Error) -> (error: Error) {
        Error::Io(other)
    }
}

impl vstd::std_specs::convert::FromSpecImpl<std::io::Error> for Error {
    open spec fn obeys_from_spec() -> bool {
        true
    }

    open spec fn from_spec(other: std::io::Error) -> Error {
        Error::Io(other)
    }
}

/// The text of the path that `std::path::Path::join` gives for the path
/// `base` and the path `part`, on the platform the program is built for.
pub uninterp spec fn joined_path(base: Seq<char>, part: Seq<char>) -> Seq<char>;

/// The text of the path that `std::path::Path::parent` gives for the path
/// `path`, on the platform the program is built for.
pub uninterp spec fn parent_of(path: Seq<char>) -> Option<Seq<char>>;

/// Calls `std::path::Path::join` on `base` with `part`. Not proved: that the
/// text of the result is `joined_path` of the two texts, that is, that the
/// joined path depends on nothing but the two paths. Both are valid UTF-8
/// and so is the path joined from them, so the conversion back to a string
/// changes nothing.
#[verifier::external_body]
fn join_path(base: &str, part: &str) -> (joined: String)
    ensures
        joined@ == joined_path(base@, part@),
{
    std::path::Path::new(base).join(part).to_string_lossy().into_owned()
}

/// Calls `std::path::Path::parent` on `path`. Not proved: that the result
/// is `parent_of` of the text, that is, that the parent, and whether there
/// is one, depends on nothing but the path.
#[verifier::external_body]
fn parent_path(path: &str) -> (parent: Option<String>)
    ensures
        match parent {
            Some(p) => parent_of(path@) == Some(p@),
            None => parent_of(path@) is None,
        },
{
    match std::path::Path::new(path).parent() {
        Some(p) => Some(p.to_string_lossy().into_owned()),
        None => None,
    }
}

/// The index of the last slash in `text`, or -1 where it holds none.
pub open spec fn last_slash(text: Seq<char>) -> int
    decreases text.len(),
{
    if text.len() == 0 {
        -1
    } else if text.last() == '/' {
        text.len() - 1
    } else {
        last_slash(text.drop_last())
    }
}

/// The parts of `text` between its slashes, from left to right. A text
/// without a slash is one part; two slashes in a row hold an empty part.
pub open spec fn parts(text: Seq<char>) -> Seq<Seq<char>>
    decreases text.len(),
{
    let k = last_slash(text);
    if 0 <= k < text.len() {
        parts(text.subrange(0, k)).push(text.subrange(k + 1, text.len() as int))
    } else {
        seq![text]
    }
}

/// The path `root` with each of `parts` joined to it, one after the other.
pub open spec fn join_all(root: Seq<char>, parts: Seq<Seq<char>>) -> Seq<char>
    decreases parts.len(),
{
    if parts.len() == 0 {
        root
    } else {
        joined_path(join_all(root, parts.drop_last()), parts.last())
    }
}

/// The path of the resource `location` below `root`: the parts of
/// `location` between its slashes, joined to `root` from left to right.
pub open spec fn resource_path(root: Seq<char>, location: Seq<char>) -> Seq<char> {
    join_all(root, parts(location))
}

/// A slash after which no other follows is the last slash.
pub proof fn lemma_last_slash(text: Seq<char>, k: int)
    requires
        -1 <= k < text.len(),
        k >= 0 ==> text[k] == '/',
        forall|j: int| k < j < text.len() ==> text[j] != '/',
    ensures
        last_slash(text) == k,
    decreases text.len(),
{
    if text.len() > 0 && k < text.len() - 1 {
        lemma_last_slash(text.drop_last(), k);
    }
}

/// Splits the name of a resource at its slashes.
pub fn resource_parts(location: &str) -> (found: Vec<String>)
    ensures
        found.len() == parts(location@).len(),
        forall|k: int| 0 <= k < found.len() ==> (#[trigger] found[k])@ == parts(location@)[k],
{
    let n: usize = location.unicode_len();
    let mut found: Vec<String> = Vec::new();
    let mut start: usize = 0;
    let mut i: usize = 0;
    while i < n
        invariant
            n == location@.len(),
            start <= i <= n,
            forall|j: int| start <= j < i ==> location@[j] != '/',
            start > 0 ==> location@[start - 1] == '/',
            start == 0 ==> found.len() == 0,
            start > 0 ==> found.len() == parts(location@.subrange(0, start - 1)).len(),
            start > 0 ==> forall|k: int|
                0 <= k < found.len() ==> (#[trigger] found[k])@ == parts(
                    location@.subrange(0, start - 1),
                )[k],
        decreases n - i,
    {
        if location.get_char(i) == '/' {
            let part: &str = location.substring_char(start, i);
            proof {
                let head = location@.subrange(0, i as int);
                lemma_last_slash(head, start - 1);
                if start > 0 {
                    assert(head.subrange(0, start - 1) =~= location@.subrange(0, start - 1));
                }
                assert(head.subrange(start as int, i as int) =~= part@);
            }
            found.push(part.to_owned());
            start = i + 1;
        }
        i = i + 1;
    }
    let part: &str = location.substring_char(start, n);
    proof {
        lemma_last_slash(location@, start - 1);
        assert(location@.subrange(0, n as int) =~= location@);
    }
    found.push(part.to_owned());
    found
}

/// The path of a resource below `root`. The name of a resource is written
/// with slashes on every platform; each part between them is joined to the
/// path as the platform joins paths.
pub fn normalize_resource_path(root: &str, location: &str) -> (path: String)
    ensures
        path@ == resource_path(root@, location@),
{
    let found: Vec<String> = resource_parts(location);
    let ghost all = parts(location@);
    let mut path: String = root.to_owned();
    let mut k: usize = 0;
    while k < found.len()
        invariant
            k <= found.len(),
            found.len() == all.len(),
            forall|j: int| 0 <= j < found.len() ==> (#[trigger] found[j])@ == all[j],
            path@ == join_all(root@, all.take(k as int)),
        decreases found.len() - k,
    {
        proof {
            assert(all.take(k + 1).drop_last() =~= all.take(k as int));
        }
        path = join_path(path.as_str(), found[k].as_str());
        k = k + 1;
    }
    proof {
        assert(all.take(k as int) =~= all);
    }
    path
}

/// A finder of resources below one root directory.
pub struct Resources {
    root: String,
}

impl View for Resources {
    type V = Seq<char>;

    /// The text of the root directory.
    closed spec fn view(&self) -> Seq<char> {
        self.root@
    }
}

impl Resources {
    /// The resources below the directory `root`.
    pub fn from_root(root: String) -> (resources: Resources)
        ensures
            resources@ == root@,
    {
        Resources { root }
    }

    /// The resources below the directory `path`, taken from the directory
    /// that holds the program file `exe_file`. Fails with `NoExePath` where
    /// the program file has no parent directory.
    pub fn from_relative_exe(exe_file: &str, path: &str) -> (result: Result<Resources, Error>)
        ensures
            match parent_of(exe_file@) {
                Some(dir) => result is Ok && result->Ok_0@ == joined_path(dir, path@),
                None => result is Err && result->Err_0 == Error::NoExePath,
            },
    {
        match parent_path(exe_file) {
            Some(dir) => Ok(Resources { root: join_path(dir.as_str(), path) }),
            None => Err(Error::NoExePath),
        }
    }

    /// The root directory.
    pub fn root(&self) -> (root: &str)
        ensures
            root@ == self@,
    {
        self.root.as_str()
    }

    /// The path of the resource `resource_name` below the root.
    pub fn path_of(&self, resource_name: &str) -> (path: String)
        ensures
            path@ == resource_path(self@, resource_name@),
    {
        normalize_resource_path(self.root.as_str(), resource_name)
    }
}

/// What a font file holds: one font, or a collection of so many.
#[derive(Clone, Copy, Debug, PartialEq, Eq, Structural)]
pub enum FontFile {
    Single,
    Collection(u32),
}

impl FontFile {
    /// The number of fonts in the file.
    pub open spec fn fonts(self) -> int {
        match self {
            FontFile::Single => 1,
            FontFile::Collection(count) => count as int,
        }
    }

    /// The number of fonts to load from the file; they have the indices
    /// from 0 on.
    pub fn font_count(&self) -> (count: u32)
        ensures
            count == self.fonts(),
    {
        match *self {
            FontFile::Single => 1,
            FontFile::Collection(count) => count,
        }
    }
}

/// The zero bytes that must not occur in a text handed on as a C string.
pub open spec fn has_nul(bytes: Seq<u8>) -> bool {
    exists|i: int| 0 <= i < bytes.len() && bytes[i] == 0
}

/// Checks the bytes of a text file that is to become a C string: a file
/// with a zero byte in it is malformed, any other is handed back as it is.
pub fn cstring_bytes(buffer: Vec<u8>) -> (result: Result<Vec<u8>, Error>)
    ensures
        has_nul(buffer@) ==> result is Err && result->Err_0 == Error::MalformedFile,
        !has_nul(buffer@) ==> result is Ok && result->Ok_0@ == buffer@,
{
    let n: usize = buffer.len();
    let mut i: usize = 0;
    while i < n
        invariant
            n == buffer@.len(),
            i <= n,
            forall|j: int| 0 <= j < i ==> buffer@[j] != 0,
        decreases n - i,
    {
        if buffer[i] == 0 {
            return Err(Error::MalformedFile);
        }
        i = i + 1;
    }
    Ok(buffer)
}

} // verus!
