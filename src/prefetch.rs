use vstd::prelude::*;
use vstd::multiset::Multiset;
use crate::entry::FileExtent;

verus! {

/// One line of the mount table: where a filesystem is mounted, the device
/// that backs it and its filesystem type.
#[derive(Debug)]
pub struct Mount {
    pub file: Vec<u8>,
    pub spec: Vec<u8>,
    pub vfstype: Vec<u8>,
}

/// Read-ahead hints for one block device: `(offset, length)` byte ranges,
/// ascending and disjoint.
#[derive(Debug)]
pub struct DeviceHints {
    pub spec: Vec<u8>,
    pub ranges: Vec<(u64, u64)>,
}

/// Whether `p` lies at or under the mount point `m`, comparing whole path
/// components: `m` is a byte prefix of `p` that ends where `p` ends, at a
/// `/` of `p`, or with a `/` of its own.
pub open spec fn path_under(p: Seq<u8>, m: Seq<u8>) -> bool {
    &&& m.len() <= p.len()
    &&& p.subrange(0, m.len() as int) == m
    &&& (p.len() == m.len() || (m.len() > 0 && m.last() == 47u8) || p[m.len() as int] == 47u8)
}

/// Whether a filesystem type is `ext3` or `ext4`, the types whose devices
/// are given read-ahead hints.
pub open spec fn is_ext_family(t: Seq<u8>) -> bool {
    t == seq![101u8, 120u8, 116u8, 51u8] || t == seq![101u8, 120u8, 116u8, 52u8]
}

/// The end of an extent, saturating at `u64::MAX`.
pub open spec fn extent_end(e: FileExtent) -> nat {
    if e.physical + e.length <= u64::MAX {
        (e.physical + e.length) as nat
    } else {
        u64::MAX as nat
    }
}

/// Whether the range `(start, length)` holds the whole extent.
pub open spec fn covers(r: (u64, u64), e: FileExtent) -> bool {
    r.0 <= e.physical && extent_end(e) <= r.0 + r.1
}

/// Extents ordered by physical offset.
pub open spec fn physical_ascending(s: Seq<FileExtent>) -> bool {
    forall|i: int, j: int| 0 <= i < j < s.len() ==> s[i].physical <= s[j].physical
}

pub fn path_is_under(p: &[u8], m: &[u8]) -> (r: bool)
    ensures
        r == path_under(p@, m@),
{
    if m.len() > p.len() {
        return false;
    }
    let mut i: usize = 0;
    while i < m.len()
        invariant
            m@.len() <= p@.len(),
            i <= m@.len(),
            forall|k: int| 0 <= k < i ==> p@[k] == m@[k],
        decreases m@.len() - i,
    {
        if p[i] != m[i] {
            assert(p@.subrange(0, m@.len() as int)[i as int] != m@[i as int]);
            return false;
        }
        i = i + 1;
    }
    assert(p@.subrange(0, m@.len() as int) =~= m@);
    p.len() == m.len() || (m.len() > 0 && m[m.len() - 1] == 47u8) || p[m.len()] == 47u8
}

pub fn is_ext(t: &[u8]) -> (r: bool)
    ensures
        r == is_ext_family(t@),
{
    if t.len() != 4 {
        assert(t@ != seq![101u8, 120u8, 116u8, 51u8]);
        assert(t@ != seq![101u8, 120u8, 116u8, 52u8]);
        return false;
    }
    let r = t[0] == 101u8 && t[1] == 120u8 && t[2] == 116u8 && (t[3] == 51u8 || t[3] == 52u8);
    proof {
        if r {
            if t@[3] == 51u8 {
                assert(t@ =~= seq![101u8, 120u8, 116u8, 51u8]);
            } else {
                assert(t@ =~= seq![101u8, 120u8, 116u8, 52u8]);
            }
        } else {
            if t@ == seq![101u8, 120u8, 116u8, 51u8] {
                assert(t@[3] == 51u8);
            }
            if t@ == seq![101u8, 120u8, 116u8, 52u8] {
                assert(t@[3] == 52u8);
            }
        }
    }
    r
}

/// The mount that holds a path: the last mount in the table whose point
/// the path lies under.
pub fn find_mount(mounts: &Vec<Mount>, p: &[u8]) -> (r: Option<usize>)
    ensures
        r is Some ==> r->0 < mounts@.len() && path_under(p@, mounts@[r->0 as int].file@)
            && forall|k: int|
            r->0 < k < mounts@.len() ==> !path_under(p@, #[trigger] mounts@[k].file@),
        r is None ==> forall|k: int|
            0 <= k < mounts@.len() ==> !path_under(p@, #[trigger] mounts@[k].file@),
{
    let mut i: usize = mounts.len();
    while i > 0
        invariant
            i <= mounts@.len(),
            forall|k: int| i <= k < mounts@.len() ==> !path_under(p@, #[trigger] mounts@[k].file@),
        decreases i,
    {
        i = i - 1;
        if path_is_under(p, mounts[i].file.as_slice()) {
            return Some(i);
        }
    }
    None
}

/// The extents ordered by physical offset.
pub fn sort_extents(v: &Vec<FileExtent>) -> (r: Vec<FileExtent>)
    ensures
        r@.to_multiset() == v@.to_multiset(),
        physical_ascending(r@),
{
    let mut r: Vec<FileExtent> = Vec::new();
    let mut i: usize = 0;
    assert(v@.subrange(0, 0).to_multiset() =~= r@.to_multiset()) by {
        broadcast use vstd::seq_lib::group_to_multiset_ensures;

        assert(v@.subrange(0, 0) =~= r@);
    }
    while i < v.len()
        invariant
            i <= v@.len(),
            r@.to_multiset() == v@.subrange(0, i as int).to_multiset(),
            physical_ascending(r@),
        decreases v@.len() - i,
    {
        let e = v[i];
        let mut j: usize = 0;
        while j < r.len() && r[j].physical <= e.physical
            invariant
                j <= r@.len(),
                forall|k: int| 0 <= k < j ==> r@[k].physical <= e.physical,
            decreases r@.len() - j,
        {
            j = j + 1;
        }
        let ghost rs = r@;
        proof {
            broadcast use vstd::seq_lib::group_to_multiset_ensures;

            crate::scan::lemma_insert_multiset(rs, j as int, e);
            assert(v@.subrange(0, i as int + 1) =~= v@.subrange(0, i as int).push(e));
        }
        r.insert(j, e);
        assert(physical_ascending(r@)) by {
            assert forall|a: int, b: int| 0 <= a < b < r@.len() implies r@[a].physical
                <= r@[b].physical by {
                if a < j && b > j {
                    assert(rs[b - 1].physical >= rs[j as int].physical || b - 1 == j);
                }
            }
        }
        i = i + 1;
    }
    assert(v@.subrange(0, i as int) =~= v@);
    r
}

/// Some range holds the extent.
pub open spec fn is_covered(r: Seq<(u64, u64)>, e: FileExtent) -> bool {
    exists|m: int| 0 <= m < r.len() && covers(r[m], e)
}

/// The ranges cover the first `i` extents.
pub open spec fn covers_first(r: Seq<(u64, u64)>, ext: Seq<FileExtent>, i: int) -> bool {
    forall|k: int| 0 <= k < i ==> is_covered(r, #[trigger] ext[k])
}

/// Each range starts where an extent starts.
pub open spec fn starts_at_extents(r: Seq<(u64, u64)>, ext: Seq<FileExtent>) -> bool {
    forall|m: int| #![trigger r[m]] 0 <= m < r.len() ==> exists|k: int| #![trigger ext[k]] 0 <= k < ext.len() && r[m].0 == ext[k].physical
}

/// The ranges are ascending with a gap between neighbours.
pub open spec fn separated(r: Seq<(u64, u64)>) -> bool {
    forall|m: int| 0 <= m < r.len() - 1 ==> (#[trigger] r[m]).0 + r[m].1 < r[m + 1].0
}

/// Some extent holds byte `x`.
pub open spec fn in_extents(ext: Seq<FileExtent>, x: int) -> bool {
    exists|k: int| 0 <= k < ext.len() && (#[trigger] ext[k]).physical <= x < extent_end(ext[k])
}

/// Every byte of the range lies in some extent.
pub open spec fn range_in_extents(rg: (u64, u64), ext: Seq<FileExtent>) -> bool {
    forall|x: int| rg.0 <= x < rg.0 + rg.1 ==> #[trigger] in_extents(ext, x)
}

/// The ranges cover the first `i` extents, start at extent starts, hold
/// no byte outside the extents, and are ascending with gaps.
pub open spec fn ranges_ok(r: Seq<(u64, u64)>, ext: Seq<FileExtent>, i: int) -> bool {
    &&& forall|m: int| 0 <= m < r.len() ==> range_in_extents(#[trigger] r[m], ext)
    &&& covers_first(r, ext, i)
    &&& starts_at_extents(r, ext)
    &&& separated(r)
}

proof fn lemma_push_covers(old_r: Seq<(u64, u64)>, ext: Seq<FileExtent>, i: int, j: int, start: u64, end: u64)
    requires
        0 <= i < j <= ext.len(),
        covers_first(old_r, ext, i),
        start <= end,
        forall|k: int| i <= k < j ==> start <= #[trigger] ext[k].physical && extent_end(ext[k]) <= end,
    ensures
        covers_first(old_r.push((start, (end - start) as u64)), ext, j),
{
    let r = old_r.push((start, (end - start) as u64));
    assert forall|k: int| 0 <= k < j implies is_covered(r, #[trigger] ext[k]) by {
        if k < i {
            let m = choose|m: int| 0 <= m < old_r.len() && covers(old_r[m], ext[k]);
            assert(r[m] == old_r[m]);
            assert(0 <= m < r.len() && covers(r[m], ext[k]));
        } else {
            let m = old_r.len() as int;
            assert(r[m] == (start, (end - start) as u64));
            assert(start <= ext[k].physical);
            assert(extent_end(ext[k]) <= end);
            assert(covers(r[m], ext[k]));
        }
    }
}

proof fn lemma_push_starts(old_r: Seq<(u64, u64)>, ext: Seq<FileExtent>, i: int, start: u64, len: u64)
    requires
        0 <= i < ext.len(),
        starts_at_extents(old_r, ext),
        start == ext[i].physical,
    ensures
        starts_at_extents(old_r.push((start, len)), ext),
{
    let r = old_r.push((start, len));
    assert forall|m: int| #![trigger r[m]] 0 <= m < r.len() implies exists|k: int| #![trigger ext[k]] 0 <= k < ext.len() && r[m].0 == ext[k].physical by {
        if m < old_r.len() {
            assert(r[m] == old_r[m]);
        } else {
            assert(r[m].0 == ext[i].physical);
        }
    }
}

proof fn lemma_push_separated(old_r: Seq<(u64, u64)>, start: u64, len: u64)
    requires
        separated(old_r),
        old_r.len() > 0 ==> old_r.last().0 + old_r.last().1 < start,
    ensures
        separated(old_r.push((start, len))),
{
    let r = old_r.push((start, len));
    assert forall|m: int| 0 <= m < r.len() - 1 implies (#[trigger] r[m]).0 + r[m].1 < r[m + 1].0 by {
        if m < old_r.len() - 1 {
            assert(r[m] == old_r[m] && r[m + 1] == old_r[m + 1]);
        } else {
            assert(r[m] == old_r.last());
        }
    }
}

/// Merges extents, ordered by physical offset, into `(offset, length)`
/// ranges: each extent lies inside one range, each range starts where an
/// extent starts, every byte of a range lies in an extent, and ranges are
/// ascending with a gap between any two.
pub fn coalesce(ext: &Vec<FileExtent>) -> (r: Vec<(u64, u64)>)
    requires
        physical_ascending(ext@),
    ensures
        ranges_ok(r@, ext@, ext@.len() as int),
{
    let n = ext.len();
    let mut r: Vec<(u64, u64)> = Vec::new();
    let mut i: usize = 0;
    while i < n
        invariant
            n == ext@.len(),
            i <= n,
            physical_ascending(ext@),
            ranges_ok(r@, ext@, i as int),
            r@.len() > 0 && i < n ==> r@.last().0 + r@.last().1 < ext@[i as int].physical,
        decreases n - i,
    {
        let start = ext[i].physical;
        let mut end = start.saturating_add(ext[i].length);
        let mut j: usize = i + 1;
        assert forall|x: int| start <= x < start + (end - start) implies #[trigger] in_extents(ext@, x) by {
            assert(ext@[i as int].physical <= x < extent_end(ext@[i as int]));
        }
        while j < n && ext[j].physical <= end
            invariant
                n == ext@.len(),
                i < j <= n,
                start == ext@[i as int].physical,
                start <= end,
                physical_ascending(ext@),
                forall|k: int| i <= k < j ==> start <= #[trigger] ext@[k].physical && extent_end(ext@[k]) <= end,
                range_in_extents((start, (end - start) as u64), ext@),
            decreases n - j,
        {
            let e2 = ext[j].physical.saturating_add(ext[j].length);
            if e2 > end {
                proof {
                    assert forall|x: int| start <= x < start + (e2 - start) implies #[trigger] in_extents(ext@, x) by {
                        if x >= end {
                            assert(ext@[j as int].physical <= x < extent_end(ext@[j as int]));
                        } else {
                            assert(start <= x < start + (end - start));
                        }
                    }
                }
                end = e2;
            }
            j = j + 1;
        }
        let ghost old_r = r@;
        r.push((start, end - start));
        proof {
            lemma_push_covers(old_r, ext@, i as int, j as int, start, end);
            lemma_push_starts(old_r, ext@, i as int, start, (end - start) as u64);
            lemma_push_separated(old_r, start, (end - start) as u64);
            assert forall|m: int| 0 <= m < r@.len() implies range_in_extents(#[trigger] r@[m], ext@) by {
                if m < old_r.len() {
                    assert(r@[m] == old_r[m]);
                }
            }
        }
        i = j;
    }
    r
}

} // verus!
