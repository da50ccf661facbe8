//! Object-store keys: a list of directory segments and an optional file name.
use vstd::prelude::*;

use crate::text::push_char;

verus! {

/// The value of an [`ObjectPath`]: its segments as character sequences.
pub struct PathView {
    pub dirs: Seq<Seq<char>>,
    pub file_name: Option<Seq<char>>,
}

/// A key in the object store.
#[derive(Debug)]
pub struct ObjectPath {
    pub dirs: Vec<String>,
    pub file_name: Option<String>,
}

pub open spec fn option_string_view(o: Option<String>) -> Option<Seq<char>> {
    match o {
        Some(s) => Some(s@),
        None => None,
    }
}

impl View for ObjectPath {
    type V = PathView;

    open spec fn view(&self) -> PathView {
        PathView {
            dirs: self.dirs@.map_values(|d: String| d@),
            file_name: option_string_view(self.file_name),
        }
    }
}

/// Segments joined by `/`.
pub open spec fn join_segments(segs: Seq<Seq<char>>) -> Seq<char>
    decreases segs.len(),
{
    if segs.len() == 0 {
        Seq::empty()
    } else if segs.len() == 1 {
        segs[0]
    } else {
        join_segments(segs.drop_last()) + seq!['/'] + segs.last()
    }
}

/// The text form of a path: directories, then the file name, separated by `/`.
pub open spec fn path_text(p: PathView) -> Seq<char> {
    match p.file_name {
        Some(f) => join_segments(p.dirs.push(f)),
        None => join_segments(p.dirs),
    }
}

/// The file-name suffix of a chunk file.
pub open spec fn parquet_suffix() -> Seq<char> {
    seq!['.', 'p', 'a', 'r', 'q', 'u', 'e', 't']
}

pub open spec fn ends_with(s: Seq<char>, suffix: Seq<char>) -> bool {
    s.len() >= suffix.len() && s.subrange(s.len() - suffix.len(), s.len() as int) == suffix
}

/// Whether a path names a file whose name ends in `.parquet`.
pub open spec fn is_parquet_spec(p: PathView) -> bool {
    match p.file_name {
        Some(f) => ends_with(f, parquet_suffix()),
        None => false,
    }
}

/// Whether `p` lies under the directory `prefix`.
pub open spec fn under_dirs(p: PathView, prefix: Seq<Seq<char>>) -> bool {
    p.dirs.len() >= prefix.len() && p.dirs.subrange(0, prefix.len() as int) == prefix
}

/// Equality of two strings, character by character.
pub fn text_eq(a: &str, b: &str) -> (r: bool)
    ensures
        r == (a@ == b@),
{
    let n = a.unicode_len();
    if n != b.unicode_len() {
        return false;
    }
    let mut i: usize = 0;
    while i < n
        invariant
            n == a@.len(),
            n == b@.len(),
            i <= n,
            forall|j: int| 0 <= j < i ==> a@[j] == b@[j],
        decreases n - i,
    {
        if a.get_char(i) != b.get_char(i) {
            return false;
        }
        i = i + 1;
    }
    assert(a@ =~= b@);
    true
}

fn copy_string(s: &String) -> (r: String)
    ensures
        r@ == s@,
{
    s.clone()
}

fn copy_strings(v: &Vec<String>) -> (r: Vec<String>)
    ensures
        r@.map_values(|d: String| d@) == v@.map_values(|d: String| d@),
{
    let mut out: Vec<String> = Vec::new();
    let mut i: usize = 0;
    while i < v.len()
        invariant
            i <= v@.len(),
            out@.len() == i,
            forall|j: int| 0 <= j < i ==> (#[trigger] out@[j])@ == v@[j]@,
        decreases v@.len() - i,
    {
        out.push(copy_string(&v[i]));
        i = i + 1;
    }
    assert(out@.map_values(|d: String| d@) =~= v@.map_values(|d: String| d@));
    out
}

/// Whether `f` ends in `.parquet`.
fn ends_with_parquet(f: &str) -> (r: bool)
    ensures
        r == ends_with(f@, parquet_suffix()),
{
    let suffix: [char; 8] = ['.', 'p', 'a', 'r', 'q', 'u', 'e', 't'];
    let n = f.unicode_len();
    if n < 8 {
        return false;
    }
    let mut i: usize = 0;
    while i < 8
        invariant
            n == f@.len(),
            n >= 8,
            i <= 8,
            suffix@ == parquet_suffix(),
            forall|j: int| 0 <= j < i ==> f@[n - 8 + j] == parquet_suffix()[j],
        decreases 8 - i,
    {
        if f.get_char(n - 8 + i) != suffix[i] {
            assert(f@.subrange(n - 8, n as int)[i as int] != parquet_suffix()[i as int]);
            return false;
        }
        i = i + 1;
    }
    assert(f@.subrange(n - 8, n as int) =~= parquet_suffix());
    true
}

impl ObjectPath {
    /// A path with the given directories and file name.
    pub fn new(dirs: Vec<String>, file_name: Option<String>) -> (r: ObjectPath)
        ensures
            r.dirs == dirs,
            r.file_name == file_name,
    {
        ObjectPath { dirs, file_name }
    }

    /// The root of the store: no directories, no file name.
    pub fn root() -> (r: ObjectPath)
        ensures
            r@.dirs.len() == 0,
            r@.file_name is None,
    {
        ObjectPath { dirs: Vec::new(), file_name: None }
    }

    /// Appends one directory segment.
    pub fn push_dir(&mut self, dir: String)
        ensures
            final(self)@.dirs == old(self)@.dirs.push(dir@),
            final(self)@.file_name == old(self)@.file_name,
    {
        let ghost d = dir@;
        self.dirs.push(dir);
        assert(self@.dirs =~= old(self)@.dirs.push(d));
    }

    /// Sets the file name.
    pub fn set_file_name(&mut self, name: String)
        ensures
            final(self)@.dirs == old(self)@.dirs,
            final(self)@.file_name == Some(name@),
    {
        self.file_name = Some(name);
    }

    /// A path equal to this one.
    pub fn duplicate(&self) -> (r: ObjectPath)
        ensures
            r@ == self@,
    {
        let file_name = match &self.file_name {
            Some(f) => Some(copy_string(f)),
            None => None,
        };
        ObjectPath { dirs: copy_strings(&self.dirs), file_name }
    }

    /// Whether two paths have the same segments.
    pub fn same_as(&self, other: &ObjectPath) -> (r: bool)
        ensures
            r == (self@ == other@),
    {
        let same_name = match (&self.file_name, &other.file_name) {
            (Some(a), Some(b)) => text_eq(a.as_str(), b.as_str()),
            (None, None) => true,
            _ => false,
        };
        if !same_name {
            return false;
        }
        let n = self.dirs.len();
        if n != other.dirs.len() {
            assert(self@.dirs.len() != other@.dirs.len());
            return false;
        }
        let mut i: usize = 0;
        while i < n
            invariant
                n == self.dirs@.len(),
                n == other.dirs@.len(),
                i <= n,
                forall|j: int| 0 <= j < i ==> self.dirs@[j]@ == other.dirs@[j]@,
            decreases n - i,
        {
            if !text_eq(self.dirs[i].as_str(), other.dirs[i].as_str()) {
                assert(self@.dirs[i as int] != other@.dirs[i as int]);
                return false;
            }
            i = i + 1;
        }
        assert(self@.dirs =~= other@.dirs);
        true
    }

    /// Whether this path lies under the directories of `prefix`.
    pub fn starts_with_dirs(&self, prefix: &ObjectPath) -> (r: bool)
        ensures
            r == under_dirs(self@, prefix@.dirs),
    {
        let n = prefix.dirs.len();
        if self.dirs.len() < n {
            return false;
        }
        let mut i: usize = 0;
        while i < n
            invariant
                n == prefix.dirs@.len(),
                n <= self.dirs@.len(),
                i <= n,
                forall|j: int| 0 <= j < i ==> self.dirs@[j]@ == prefix.dirs@[j]@,
            decreases n - i,
        {
            if !text_eq(self.dirs[i].as_str(), prefix.dirs[i].as_str()) {
                assert(self@.dirs.subrange(0, n as int)[i as int] != prefix@.dirs[i as int]);
                return false;
            }
            i = i + 1;
        }
        assert(self@.dirs.subrange(0, n as int) =~= prefix@.dirs);
        true
    }

    /// Whether the file name ends in `.parquet`.
    pub fn is_parquet(&self) -> (r: bool)
        ensures
            r == is_parquet_spec(self@),
    {
        match &self.file_name {
            None => false,
            Some(f) => ends_with_parquet(f.as_str()),
        }
    }

    /// The text form: segments joined by `/`.
    pub fn display(&self) -> (r: String)
        ensures
            r@ == path_text(self@),
    {
        let mut out = String::new();
        let mut i: usize = 0;
        while i < self.dirs.len()
            invariant
                i <= self.dirs@.len(),
                out@ == join_segments(self@.dirs.subrange(0, i as int)),
            decreases self.dirs@.len() - i,
        {
            if i > 0 {
                push_char(&mut out, '/');
            }
            out.append(self.dirs[i].as_str());
            proof {
                let segs = self@.dirs.subrange(0, i as int + 1);
                assert(segs.drop_last() =~= self@.dirs.subrange(0, i as int));
                if i == 0 {
                    assert(out@ =~= segs[0]);
                } else {
                    assert(out@ =~= join_segments(segs.drop_last()) + seq!['/'] + segs.last());
                }
            }
            i = i + 1;
        }
        assert(self@.dirs.subrange(0, i as int) =~= self@.dirs);
        match &self.file_name {
            None => {},
            Some(f) => {
                let ghost before = out@;
                if self.dirs.len() > 0 {
                    push_char(&mut out, '/');
                }
                out.append(f.as_str());
                proof {
                    let segs = self@.dirs.push(f@);
                    assert(segs.drop_last() =~= self@.dirs);
                    if self.dirs.len() == 0 {
                        assert(out@ =~= segs[0]);
                    } else {
                        assert(out@ =~= before + seq!['/'] + segs.last());
                    }
                }
            },
        }
        out
    }
}

} // verus!
