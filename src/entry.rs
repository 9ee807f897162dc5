use vstd::prelude::*;

verus! {

/// The kind of a directory entry.
#[derive(PartialEq, Eq, Structural, Copy, Clone, Debug)]
pub enum FileKind {
    Regular,
    Directory,
    Symlink,
    Other,
}

impl FileKind {
    pub fn is_dir(&self) -> (r: bool)
        ensures
            r == (*self == FileKind::Directory),
    {
        match self {
            FileKind::Directory => true,
            _ => false,
        }
    }
}

/// A contiguous range of a block device that holds part of a file.
#[derive(PartialEq, Eq, Structural, Copy, Clone, Debug)]
pub struct FileExtent {
    pub physical: u64,
    pub length: u64,
}

/// Sum of the lengths of a sequence of extents.
pub open spec fn extents_total(s: Seq<FileExtent>) -> nat
    decreases s.len(),
{
    if s.len() == 0 {
        0
    } else {
        extents_total(s.drop_last()) + s.last().length as nat
    }
}

/// Sum of the lengths of a sequence of extents, saturating at `u64::MAX`.
pub open spec fn extents_size(s: Seq<FileExtent>) -> nat {
    if extents_total(s) <= u64::MAX {
        extents_total(s)
    } else {
        u64::MAX as nat
    }
}

/// The physical offset of the first extent, or zero where there is none.
pub open spec fn first_physical(s: Seq<FileExtent>) -> u64 {
    if s.len() == 0 {
        0
    } else {
        s[0].physical
    }
}

/// One entry of the walk: a path with its kind, its inode number and,
/// for a discovered directory, its extents.
#[derive(Debug)]
pub struct Entry {
    pub path: Vec<u8>,
    pub ftype: FileKind,
    pub ino: u64,
    pub extents: Vec<FileExtent>,
}

/// A copy of a byte string.
pub fn copy_bytes(v: &Vec<u8>) -> (r: Vec<u8>)
    ensures
        r@ == v@,
{
    let mut r: Vec<u8> = Vec::new();
    let mut i: usize = 0;
    while i < v.len()
        invariant
            i <= v@.len(),
            r@ == v@.subrange(0, i as int),
        decreases v@.len() - i,
    {
        r.push(v[i]);
        i = i + 1;
        assert(r@ =~= v@.subrange(0, i as int));
    }
    assert(r@ =~= v@);
    r
}

/// Whether two byte strings are equal.
pub fn bytes_eq(a: &[u8], b: &[u8]) -> (r: bool)
    ensures
        r == (a@ == b@),
{
    if a.len() != b.len() {
        return false;
    }
    let mut i: usize = 0;
    while i < a.len()
        invariant
            a@.len() == b@.len(),
            i <= a@.len(),
            forall|j: int| 0 <= j < i ==> a@[j] == b@[j],
        decreases a@.len() - i,
    {
        if a[i] != b[i] {
            return false;
        }
        i = i + 1;
    }
    assert(a@ =~= b@);
    true
}

impl Entry {
    pub fn new(buf: Vec<u8>, ft: FileKind, ino: u64, extents: Vec<FileExtent>) -> (r: Entry)
        ensures
            r.path@ == buf@,
            r.ftype == ft,
            r.ino == ino,
            r.extents@ == extents@,
    {
        Entry { path: buf, ftype: ft, ino, extents }
    }

    pub fn ino(&self) -> (r: u64)
        ensures
            r == self.ino,
    {
        self.ino
    }

    pub fn file_type(&self) -> (r: FileKind)
        ensures
            r == self.ftype,
    {
        self.ftype
    }

    pub fn path(&self) -> (r: &[u8])
        ensures
            r@ == self.path@,
    {
        self.path.as_slice()
    }

    /// Total length of the entry's extents, saturating at `u64::MAX`.
    pub fn extent_sum(&self) -> (r: u64)
        ensures
            r == extents_size(self.extents@),
    {
        let mut acc: u64 = 0;
        let mut i: usize = 0;
        while i < self.extents.len()
            invariant
                i <= self.extents@.len(),
                acc == extents_size(self.extents@.subrange(0, i as int)),
            decreases self.extents@.len() - i,
        {
            let len = self.extents[i].length;
            proof {
                let s = self.extents@.subrange(0, i as int + 1);
                assert(s.drop_last() =~= self.extents@.subrange(0, i as int));
            }
            acc = acc.saturating_add(len);
            i = i + 1;
        }
        assert(self.extents@.subrange(0, i as int) =~= self.extents@);
        acc
    }

    /// The physical offset of the first extent, or zero.
    pub fn first_offset(&self) -> (r: u64)
        ensures
            r == first_physical(self.extents@),
    {
        first_extent_offset(&self.extents)
    }
}

/// Two entries are the same entry when their paths are equal.
impl PartialEq for Entry {
    fn eq(&self, other: &Entry) -> (r: bool) {
        bytes_eq(self.path.as_slice(), other.path.as_slice())
    }
}

impl vstd::std_specs::cmp::PartialEqSpecImpl for Entry {
    open spec fn obeys_eq_spec() -> bool {
        true
    }

    open spec fn eq_spec(&self, other: &Entry) -> bool {
        self.path@ == other.path@
    }
}

/// The physical offset of the first extent of a list, or zero.
pub fn first_extent_offset(extents: &Vec<FileExtent>) -> (r: u64)
    ensures
        r == first_physical(extents@),
{
    if extents.len() == 0 {
        0
    } else {
        extents[0].physical
    }
}

} // verus!
