use vstd::prelude::*;
use std::collections::VecDeque;
use vstd::multiset::Multiset;
use crate::entry::{Entry, FileExtent, FileKind, extents_size, first_physical, first_extent_offset, copy_bytes, bytes_eq};
use crate::prefetch::{DeviceHints, Mount, coalesce, extent_end, find_mount, in_extents, is_covered, is_ext, is_ext_family, path_under, separated, sort_extents};

verus! {

broadcast use vstd::seq_lib::group_seq_properties;

/// The emission order requested for a scan.
#[derive(PartialEq, Eq, Structural, Copy, Clone, Debug)]
pub enum Order {
    /// Entries are returned as they are found; only directories are visited
    /// by physical layout.
    Dentries,
    /// Entries are returned in batches sorted by inode number.
    Inode,
    /// Entries are returned in batches sorted by the physical offset of
    /// their contents.
    Content,
}

/// Which of the three emission modes the walk is in.
#[derive(PartialEq, Eq, Structural, Copy, Clone, Debug)]
pub enum Phase {
    DirWalk,
    InodePass,
    ContentPass,
}

/// Keys strictly ascending.
pub open spec fn keys_ascending(s: Seq<(u64, Entry)>) -> bool {
    forall|i: int, j: int| 0 <= i < j < s.len() ==> s[i].0 < s[j].0
}

/// Keys non-increasing, so that the last pair holds the smallest key.
pub open spec fn keys_descending(s: Seq<(u64, Entry)>) -> bool {
    forall|i: int, j: int| 0 <= i < j < s.len() ==> s[i].0 >= s[j].0
}

/// Inode numbers non-increasing, so that the last entry has the smallest.
pub open spec fn inodes_descending(s: Seq<Entry>) -> bool {
    forall|i: int, j: int| 0 <= i < j < s.len() ==> s[i].ino >= s[j].ino
}

/// The pairs that the content pass makes of the first `k` entries taken
/// from the back of a batch, each with the offset found for it.
pub open spec fn batch_pairs(batch: Seq<Entry>, extents: Seq<Vec<FileExtent>>, k: nat) -> Seq<(u64, Entry)> {
    Seq::new(k, |j: int| (batch_offset(extents, j), batch[batch.len() - 1 - j]))
}

/// The entries of a keyed sequence.
pub open spec fn leaf_entries(s: Seq<(u64, Entry)>) -> Seq<Entry> {
    s.map_values(|p: (u64, Entry)| p.1)
}

/// The queue `(np, nu)` is `(op, ou)` with `d` placed at key `k`: it
/// replaces the directory held there, which moves to the back of the
/// unordered queue, or is inserted in key order with `ou` unchanged.
pub open spec fn keyed_add(
    op: Seq<(u64, Entry)>,
    ou: Seq<Entry>,
    np: Seq<(u64, Entry)>,
    nu: Seq<Entry>,
    k: u64,
    d: Entry,
) -> bool {
    if has_key(op, k) {
        exists|i: int|
            0 <= i < op.len() && (#[trigger] op[i]).0 == k && np == op.update(i, (k, d)) && nu
                == ou.push(op[i].1)
    } else {
        nu == ou && exists|i: int| 0 <= i <= op.len() && np == #[trigger] op.insert(i, (k, d))
    }
}

/// Whether a key occurs in a keyed sequence.
pub open spec fn has_key(s: Seq<(u64, Entry)>, k: u64) -> bool {
    exists|i: int| 0 <= i < s.len() && s[i].0 == k
}

pub(crate) proof fn lemma_insert_multiset<A>(s: Seq<A>, i: int, x: A)
    requires
        0 <= i <= s.len(),
    ensures
        s.insert(i, x).to_multiset() =~= s.to_multiset().insert(x),
{
    broadcast use vstd::seq_lib::group_to_multiset_ensures;

    let t = s.insert(i, x);
    assert(t.remove(i) =~= s);
    assert(t.contains(x)) by {
        assert(t[i] == x);
    }
    assert(t.to_multiset().remove(x) =~= s.to_multiset());
    assert(t.to_multiset().count(x) > 0);
}

proof fn lemma_pop_multiset<A>(s: Seq<A>)
    requires
        s.len() > 0,
    ensures
        s.to_multiset() =~= s.drop_last().to_multiset().insert(s.last()),
{
    broadcast use vstd::seq_lib::group_to_multiset_ensures;

    assert(s.drop_last().push(s.last()) =~= s);
}

/// Sorts entries by inode number, largest first.
pub fn sort_by_inode_desc(v: Vec<Entry>) -> (r: Vec<Entry>)
    ensures
        r@.to_multiset() == v@.to_multiset(),
        inodes_descending(r@),
{
    let mut v = v;
    let ghost orig = v@;
    let mut r: Vec<Entry> = Vec::new();
    while v.len() > 0
        invariant
            r@.to_multiset().add(v@.to_multiset()) == orig.to_multiset(),
            inodes_descending(r@),
        decreases v@.len(),
    {
        let ghost vs = v@;
        let e = v.pop().unwrap();
        proof {
            lemma_pop_multiset(vs);
        }
        let mut j: usize = 0;
        while j < r.len() && r[j].ino >= e.ino
            invariant
                j <= r@.len(),
                forall|k: int| 0 <= k < j ==> r@[k].ino >= e.ino,
            decreases r@.len() - j,
        {
            j = j + 1;
        }
        let ghost rs = r@;
        proof {
            lemma_insert_multiset(rs, j as int, e);
        }
        r.insert(j, e);
        assert(inodes_descending(r@)) by {
            assert forall|a: int, b: int| 0 <= a < b < r@.len() implies r@[a].ino >= r@[b].ino by {
                if a < j && b > j {
                    assert(rs[a].ino >= e.ino);
                    assert(j < rs.len() ==> rs[j as int].ino < e.ino);
                    assert(rs[b - 1].ino <= rs[j as int].ino || b - 1 == j);
                }
            }
        }
        assert(r@.to_multiset().add(v@.to_multiset()) =~= orig.to_multiset());
    }
    assert(v@.to_multiset() =~= Multiset::empty()) by {
        broadcast use vstd::seq_lib::group_to_multiset_ensures;
    }
    assert(r@.to_multiset() =~= r@.to_multiset().add(v@.to_multiset()));
    r
}

/// Default number of entries buffered before a sorted pass.
pub const DEFAULT_BATCH: usize = 1024;

/// Largest value of the adaptive prefetch cap.
pub const MAX_CAP: usize = 2048;

/// Value the prefetch cap collapses to on a miss.
pub const MISS_CAP: usize = 2;

/// The prefetch cap after a hit: doubled plus one, saturating at `MAX_CAP`.
pub open spec fn grown_cap(c: nat) -> nat {
    if 2 * c + 1 <= MAX_CAP {
        2 * c + 1
    } else {
        MAX_CAP as nat
    }
}

/// Whether a path has outstanding read-ahead recorded against it.
pub open spec fn holds_path(s: Seq<(Vec<u8>, u64)>, p: Seq<u8>) -> bool {
    exists|i: int| 0 <= i < s.len() && s[i].0@ == p
}

/// The offset that the content pass gives to the `k`th entry of a batch:
/// the first physical offset of its extents, or zero where none were found.
pub open spec fn batch_offset(extents: Seq<Vec<FileExtent>>, k: int) -> u64 {
    if 0 <= k < extents.len() {
        first_physical(extents[k]@)
    } else {
        0
    }
}

/// The outstanding read-ahead budget in bytes.
pub const LIMIT: u64 = 8388608;

/// Bytes recorded against all outstanding hints.
pub open spec fn prefetch_total(s: Seq<(Vec<u8>, u64)>) -> nat
    decreases s.len(),
{
    if s.len() == 0 {
        0
    } else {
        prefetch_total(s.drop_last()) + s.last().1 as nat
    }
}

/// What is left of the budget once `t` bytes are outstanding.
pub open spec fn budget_left(t: nat) -> u64 {
    if t >= LIMIT {
        0
    } else {
        (LIMIT - t) as u64
    }
}

/// The outstanding bytes exceed the budget by at most the size of one
/// outstanding hint.
pub open spec fn budget_ok(s: Seq<(Vec<u8>, u64)>) -> bool {
    prefetch_total(s) <= LIMIT || exists|j: int|
        0 <= j < s.len() && prefetch_total(s) <= LIMIT + (#[trigger] s[j]).1
}

/// The walk stops here: the budget is spent or more than `cap + 1` hints
/// are held.
pub open spec fn stopped(rec: Seq<(Vec<u8>, u64)>, cap: nat) -> bool {
    budget_left(prefetch_total(rec)) == 0 || rec.len() > cap + 1
}

/// `fin` is what the read-ahead walk over the candidates `c` makes of the
/// recorded hints `rec`: each candidate whose path is not yet recorded is
/// appended with its extent size, until the walk stops.
pub open spec fn walk(c: Seq<Entry>, rec: Seq<(Vec<u8>, u64)>, fin: Seq<(Vec<u8>, u64)>, cap: nat) -> bool
    decreases c.len(),
{
    if c.len() == 0 || stopped(rec, cap) {
        fin == rec
    } else if holds_path(rec, c[0].path@) {
        walk(c.drop_first(), rec, fin, cap)
    } else {
        &&& fin.len() > rec.len()
        &&& fin.subrange(0, rec.len() as int) == rec
        &&& fin[rec.len() as int].0@ == c[0].path@
        &&& fin[rec.len() as int].1 == extents_size(c[0].extents@)
        &&& walk(c.drop_first(), fin.subrange(0, rec.len() + 1 as int), fin, cap)
    }
}

/// `f` splits the ordered queue at the cursor: keys before it are below
/// the cursor, keys from it on are not.
pub open spec fn cursor_split(s: Seq<(u64, Entry)>, c: u64, f: int) -> bool {
    &&& 0 <= f <= s.len()
    &&& forall|j: int| 0 <= j < f ==> (#[trigger] s[j]).0 < c
    &&& forall|j: int| f <= j < s.len() ==> (#[trigger] s[j]).0 >= c
}

/// The read-ahead candidates in order: the unordered queue, then the ordered
/// queue from the cursor on, then the part before the cursor.
pub open spec fn cands(q: &ToScan, f: int) -> Seq<Entry> {
    q.unordered@ + leaf_entries(q.phy_sorted@.subrange(f, q.phy_sorted@.len() as int))
        + leaf_entries(q.phy_sorted@.subrange(0, f))
}

/// `fin` is the hint record after read-ahead on `q`: unchanged without a
/// mount snapshot or with more than half the budget outstanding, else the
/// walk over the candidates.
pub open spec fn prefetch_result(q: &ToScan, fin: Seq<(Vec<u8>, u64)>) -> bool {
    if q.mountpoints@.len() == 0 || prefetch_total(q.prefetched@) > LIMIT / 2 {
        fin == q.prefetched@
    } else {
        exists|f: int|
            cursor_split(q.phy_sorted@, q.cursor, f) && #[trigger] walk(
                cands(q, f),
                q.prefetched@,
                fin,
                q.prefetch_cap as nat,
            )
    }
}

/// The hit/miss feedback for taking the directory at path `p`: a recorded
/// hint is dropped and the cap grows; otherwise the cap collapses and all
/// hints are forgotten.
pub open spec fn feedback(
    rec: Seq<(Vec<u8>, u64)>,
    p: Seq<u8>,
    cap: nat,
    fin: Seq<(Vec<u8>, u64)>,
    fcap: nat,
) -> bool {
    if holds_path(rec, p) {
        exists|i: int|
            0 <= i < rec.len() && (#[trigger] rec[i]).0@ == p && fin == rec.remove(i) && fcap
                == grown_cap(cap)
    } else {
        fin.len() == 0 && fcap == MISS_CAP
    }
}

proof fn lemma_walk_prefix(c: Seq<Entry>, rec: Seq<(Vec<u8>, u64)>, fin: Seq<(Vec<u8>, u64)>, cap: nat)
    requires
        walk(c, rec, fin, cap),
    ensures
        fin.len() >= rec.len(),
        fin.subrange(0, rec.len() as int) == rec,
    decreases c.len(),
{
    if c.len() == 0 || stopped(rec, cap) {
        assert(fin.subrange(0, rec.len() as int) =~= rec);
    } else if holds_path(rec, c[0].path@) {
        lemma_walk_prefix(c.drop_first(), rec, fin, cap);
    }
}

/// `i` is the directory that the sweep takes next from a queue ordered by
/// offset: the first at or after the cursor, or, where every key is below
/// the cursor, the first of all.
pub open spec fn sweep_pick(s: Seq<(u64, Entry)>, c: u64, i: int) -> bool {
    if exists|j: int| 0 <= j < s.len() && (#[trigger] s[j]).0 >= c {
        s[i].0 >= c && forall|j: int| 0 <= j < i ==> (#[trigger] s[j]).0 < c
    } else {
        i == 0
    }
}

/// One candidate taken by the walk, from `rec` to `new`.
pub open spec fn walk_step(e: Entry, rec: Seq<(Vec<u8>, u64)>, new: Seq<(Vec<u8>, u64)>) -> bool {
    if holds_path(rec, e.path@) {
        new == rec
    } else {
        &&& new.len() == rec.len() + 1
        &&& new.drop_last() == rec
        &&& new.last().0@ == e.path@
        &&& new.last().1 == extents_size(e.extents@)
    }
}

proof fn lemma_advance(
    c: Seq<Entry>,
    i: int,
    i1: int,
    start: Seq<(Vec<u8>, u64)>,
    cur: Seq<(Vec<u8>, u64)>,
    new: Seq<(Vec<u8>, u64)>,
    cap: nat,
)
    requires
        0 <= i < c.len(),
        i1 == i + 1,
        !stopped(cur, cap),
        walk_step(c[i], cur, new),
        forall|fin: Seq<(Vec<u8>, u64)>|
            #[trigger] walk(c.subrange(i, c.len() as int), cur, fin, cap) ==> walk(c, start, fin, cap),
    ensures
        forall|fin: Seq<(Vec<u8>, u64)>|
            #[trigger] walk(c.subrange(i1, c.len() as int), new, fin, cap) ==> walk(c, start, fin, cap),
{
    let r = c.subrange(i, c.len() as int);
    assert(r.drop_first() =~= c.subrange(i + 1, c.len() as int));
    assert(r[0] == c[i]);
    assert forall|fin: Seq<(Vec<u8>, u64)>|
        #[trigger] walk(c.subrange(i + 1, c.len() as int), new, fin, cap) implies walk(c, start, fin, cap) by {
        if !holds_path(cur, c[i].path@) {
            lemma_walk_prefix(c.subrange(i + 1, c.len() as int), new, fin, cap);
            assert(fin.subrange(0, cur.len() + 1 as int) =~= new);
            assert(fin.subrange(0, cur.len() as int) =~= new.drop_last());
            assert(fin[cur.len() as int] == new.last());
        }
        assert(walk(r, cur, fin, cap));
    }
}

/// No path is recorded twice.
pub open spec fn paths_distinct(s: Seq<(Vec<u8>, u64)>) -> bool {
    forall|a: int, b: int| 0 <= a < b < s.len() ==> (#[trigger] s[a]).0@ != (#[trigger] s[b]).0@
}

/// A byte string occurs in a list.
pub open spec fn is_listed(l: Seq<Vec<u8>>, x: Seq<u8>) -> bool {
    exists|i: int| 0 <= i < l.len() && (#[trigger] l[i])@ == x
}

/// The mounts whose device is not among the failed ones, in order.
pub open spec fn kept_mounts(ms: Seq<Mount>, failed: Seq<Vec<u8>>) -> Seq<Mount> {
    ms.filter(|m: Mount| !is_listed(failed, m.spec@))
}

proof fn lemma_kept_push(ms: Seq<Mount>, m: Mount, failed: Seq<Vec<u8>>)
    ensures
        kept_mounts(ms.push(m), failed) == if is_listed(failed, m.spec@) {
            kept_mounts(ms, failed)
        } else {
            kept_mounts(ms, failed).push(m)
        },
{
    reveal(Seq::filter);
    assert(ms.push(m).drop_last() =~= ms);
}

/// A device group names the device of an `ext3` or `ext4` mount.
pub open spec fn names_ext_device(spec: Seq<u8>, mounts: Seq<Mount>) -> bool {
    exists|m: int| 0 <= m < mounts.len() && (#[trigger] mounts[m]).spec@ == spec && is_ext_family(mounts[m].vfstype@)
}

pub open spec fn groups_ok(g: Seq<(Vec<u8>, Vec<FileExtent>)>, mounts: Seq<Mount>) -> bool {
    &&& forall|k: int| 0 <= k < g.len() ==> names_ext_device((#[trigger] g[k]).0@, mounts)
    &&& forall|a: int, b: int| 0 <= a < b < g.len() ==> (#[trigger] g[a]).0@ != (#[trigger] g[b]).0@
}

/// `m` is the mount that holds path `p`: the last one whose point `p` lies
/// under.
pub open spec fn is_mount_of(mounts: Seq<Mount>, p: Seq<u8>, m: int) -> bool {
    &&& 0 <= m < mounts.len()
    &&& path_under(p, mounts[m].file@)
    &&& forall|k: int| m < k < mounts.len() ==> !path_under(p, #[trigger] mounts[k].file@)
}

/// Where the mount holding `e` is `ext3` or `ext4`, every extent of `e` is
/// in the group for that mount's device.
pub open spec fn grouped(g: Seq<(Vec<u8>, Vec<FileExtent>)>, mounts: Seq<Mount>, e: Entry) -> bool {
    forall|m: int|
        #[trigger] is_mount_of(mounts, e.path@, m) && is_ext_family(mounts[m].vfstype@) ==> exists|gi: int|
            0 <= gi < g.len() && (#[trigger] g[gi]).0@ == mounts[m].spec@ && forall|x: int|
                0 <= x < e.extents@.len() ==> g[gi].1@.contains(#[trigger] e.extents@[x])
}

/// Groups only grow: each keeps its device and its extents, maybe with more.
pub open spec fn grows(a: Seq<(Vec<u8>, Vec<FileExtent>)>, b: Seq<(Vec<u8>, Vec<FileExtent>)>) -> bool {
    &&& a.len() <= b.len()
    &&& forall|gi: int| 0 <= gi < a.len() ==> (#[trigger] b[gi]).0@ == a[gi].0@ && forall|y: FileExtent|
        a[gi].1@.contains(y) ==> #[trigger] b[gi].1@.contains(y)
}

proof fn lemma_grouped_grows(a: Seq<(Vec<u8>, Vec<FileExtent>)>, b: Seq<(Vec<u8>, Vec<FileExtent>)>, mounts: Seq<Mount>, e: Entry)
    requires
        grows(a, b),
        grouped(a, mounts, e),
    ensures
        grouped(b, mounts, e),
{
    assert forall|m: int|
        #[trigger] is_mount_of(mounts, e.path@, m) && is_ext_family(mounts[m].vfstype@) implies exists|gi: int|
            0 <= gi < b.len() && (#[trigger] b[gi]).0@ == mounts[m].spec@ && forall|x: int|
                0 <= x < e.extents@.len() ==> b[gi].1@.contains(#[trigger] e.extents@[x]) by {
        let gi = choose|gi: int|
            0 <= gi < a.len() && (#[trigger] a[gi]).0@ == mounts[m].spec@ && forall|x: int|
                0 <= x < e.extents@.len() ==> a[gi].1@.contains(#[trigger] e.extents@[x]);
        assert(b[gi].0@ == a[gi].0@);
        assert forall|x: int| 0 <= x < e.extents@.len() implies b[gi].1@.contains(#[trigger] e.extents@[x]) by {
            assert(a[gi].1@.contains(e.extents@[x]));
        }
    }
}

/// Where the mount holding `e` is `ext3` or `ext4`, a hint for that
/// mount's device covers every extent of `e`.
pub open spec fn hinted(hs: Seq<DeviceHints>, mounts: Seq<Mount>, e: Entry) -> bool {
    forall|m: int|
        #[trigger] is_mount_of(mounts, e.path@, m) && is_ext_family(mounts[m].vfstype@) ==> exists|h: int|
            0 <= h < hs.len() && (#[trigger] hs[h]).spec@ == mounts[m].spec@ && forall|x: int|
                0 <= x < e.extents@.len() ==> is_covered(hs[h].ranges@, #[trigger] e.extents@[x])
}

/// `e` is a directory queued in `q`.
pub open spec fn queued_entry(q: &ToScan, e: Entry) -> bool {
    q.unordered@.contains(e) || exists|i: int| 0 <= i < q.phy_sorted@.len() && (#[trigger] q.phy_sorted@[i]).1 == e
}

/// Some extent of one of the entries holds byte `x`.
pub open spec fn in_entries(es: Seq<Entry>, x: int) -> bool {
    exists|q: int, k: int|
        0 <= q < es.len() && 0 <= k < es[q].extents@.len() && (#[trigger] es[q].extents@[k]).physical <= x
            < extent_end(es[q].extents@[k])
}

/// Every byte of the range lies in an extent of one of the entries.
pub open spec fn range_in_entries(rg: (u64, u64), es: Seq<Entry>) -> bool {
    forall|x: int| rg.0 <= x < rg.0 + rg.1 ==> #[trigger] in_entries(es, x)
}

/// Every extent held by a group is an extent of one of the entries.
pub open spec fn from_entries(g: Seq<(Vec<u8>, Vec<FileExtent>)>, es: Seq<Entry>) -> bool {
    forall|gi: int, y: FileExtent|
        0 <= gi < g.len() && #[trigger] g[gi].1@.contains(y) ==> exists|q: int|
            0 <= q < es.len() && (#[trigger] es[q].extents@).contains(y)
}

proof fn lemma_ranges_from_entries(
    ranges: Seq<(u64, u64)>,
    ordered: Seq<FileExtent>,
    group: Seq<FileExtent>,
    es: Seq<Entry>,
)
    requires
        crate::prefetch::ranges_ok(ranges, ordered, ordered.len() as int),
        ordered.to_multiset() == group.to_multiset(),
        forall|y: FileExtent| #[trigger] group.contains(y) ==> exists|q: int|
            0 <= q < es.len() && (#[trigger] es[q].extents@).contains(y),
    ensures
        forall|m: int| 0 <= m < ranges.len() ==> range_in_entries(#[trigger] ranges[m], es),
{
    assert forall|m: int| 0 <= m < ranges.len() implies range_in_entries(#[trigger] ranges[m], es) by {
        assert forall|x: int| ranges[m].0 <= x < ranges[m].0 + ranges[m].1 implies #[trigger] in_entries(es, x) by {
            broadcast use vstd::seq_lib::group_to_multiset_ensures;

            assert(crate::prefetch::range_in_extents(ranges[m], ordered));
            assert(in_extents(ordered, x));
            let k = choose|k: int| 0 <= k < ordered.len() && (#[trigger] ordered[k]).physical <= x < extent_end(ordered[k]);
            let y = ordered[k];
            assert(ordered.contains(y));
            assert(ordered.to_multiset().count(y) > 0);
            assert(group.contains(y));
            let q = choose|q: int| 0 <= q < es.len() && (#[trigger] es[q].extents@).contains(y);
            let kk = choose|kk: int| 0 <= kk < es[q].extents@.len() && es[q].extents@[kk] == y;
            assert(es[q].extents@[kk].physical <= x < extent_end(es[q].extents@[kk]));
        }
    }
}

/// The hints `hs` cover the directories `es`, queued in `q`, whose paths
/// are the records that `fin` adds to those of `q`.
pub open spec fn hints_cover_new(q: &ToScan, fin: Seq<(Vec<u8>, u64)>, hs: Seq<DeviceHints>, es: Seq<Entry>) -> bool {
    &&& es.len() + q.prefetched@.len() == fin.len()
    &&& forall|k: int|
        0 <= k < es.len() ==> queued_entry(q, #[trigger] es[k]) && es[k].path@ == fin[q.prefetched@.len() + k].0@
            && hinted(hs, q.mountpoints@, es[k])
    &&& forall|h: int, m: int|
        0 <= h < hs.len() && 0 <= m < hs[h].ranges@.len() ==> range_in_entries(#[trigger] hs[h].ranges@[m], es)
}

/// Hints for the device of an `ext3` or `ext4` mount, in ascending,
/// separated ranges.
pub open spec fn hint_ok(h: DeviceHints, mounts: Seq<Mount>) -> bool {
    &&& names_ext_device(h.spec@, mounts)
    &&& separated(h.ranges@)
}

proof fn lemma_total_remove(s: Seq<(Vec<u8>, u64)>, i: int)
    requires
        0 <= i < s.len(),
    ensures
        prefetch_total(s.remove(i)) + s[i].1 == prefetch_total(s),
    decreases s.len(),
{
    if i == s.len() - 1 {
        assert(s.remove(i) =~= s.drop_last());
    } else {
        lemma_total_remove(s.drop_last(), i);
        assert(s.remove(i).drop_last() =~= s.drop_last().remove(i));
        assert(s.remove(i).last() == s.last());
    }
}

proof fn lemma_budget_remove(s: Seq<(Vec<u8>, u64)>, i: int)
    requires
        0 <= i < s.len(),
        budget_ok(s),
    ensures
        budget_ok(s.remove(i)),
{
    lemma_total_remove(s, i);
    let t = s.remove(i);
    if prefetch_total(s) > LIMIT {
        let j = choose|j: int| 0 <= j < s.len() && prefetch_total(s) <= LIMIT + (#[trigger] s[j]).1;
        if j < i {
            assert(t[j] == s[j]);
        } else if j > i {
            assert(t[j - 1] == s[j]);
        }
    }
}

/// Whether a byte string occurs in a list.
pub fn listed(l: &Vec<Vec<u8>>, x: &[u8]) -> (r: bool)
    ensures
        r == is_listed(l@, x@),
{
    let mut i: usize = 0;
    while i < l.len()
        invariant
            i <= l@.len(),
            forall|k: int| 0 <= k < i ==> (#[trigger] l@[k])@ != x@,
        decreases l@.len() - i,
    {
        if bytes_eq(l[i].as_slice(), x) {
            return true;
        }
        i = i + 1;
    }
    false
}

/// The bytes recorded against all hints, saturating at `u64::MAX`.
pub fn total_of(v: &Vec<(Vec<u8>, u64)>) -> (r: u64)
    ensures
        r == if prefetch_total(v@) <= u64::MAX { prefetch_total(v@) } else { u64::MAX as nat },
{
    let mut acc: u64 = 0;
    let mut i: usize = 0;
    while i < v.len()
        invariant
            i <= v@.len(),
            acc == if prefetch_total(v@.subrange(0, i as int)) <= u64::MAX {
                prefetch_total(v@.subrange(0, i as int))
            } else {
                u64::MAX as nat
            },
        decreases v@.len() - i,
    {
        proof {
            assert(v@.subrange(0, i as int + 1).drop_last() =~= v@.subrange(0, i as int));
        }
        acc = acc.saturating_add(v[i].1);
        i = i + 1;
    }
    assert(v@.subrange(0, i as int) =~= v@);
    acc
}

/// Records one candidate for read-ahead. Returns whether the walk stops:
/// the budget is spent or the cap is reached. A path already recorded is
/// passed over; a new one is recorded with its size, and its extents join
/// the group of its mount's device where that mount is `ext3` or `ext4`.
fn consider(
    prefetched: &mut Vec<(Vec<u8>, u64)>,
    mounts: &Vec<Mount>,
    groups: &mut Vec<(Vec<u8>, Vec<FileExtent>)>,
    e: &Entry,
    remaining: &mut u64,
    cap: usize,
) -> (stop: bool)
    requires
        *old(remaining) == budget_left(prefetch_total(old(prefetched)@)),
        budget_ok(old(prefetched)@),
        paths_distinct(old(prefetched)@),
        cap <= MAX_CAP,
        groups_ok(old(groups)@, mounts@),
    ensures
        *final(remaining) == budget_left(prefetch_total(final(prefetched)@)),
        budget_ok(final(prefetched)@),
        paths_distinct(final(prefetched)@),
        groups_ok(final(groups)@, mounts@),
        final(prefetched)@.len() >= old(prefetched)@.len(),
        final(prefetched)@.subrange(0, old(prefetched)@.len() as int) == old(prefetched)@,
        final(prefetched)@.len() <= old(prefetched)@.len() || final(prefetched)@.len() <= cap + 2,
        stop ==> final(prefetched)@ == old(prefetched)@,
        stop == stopped(old(prefetched)@, cap as nat),
        !stop ==> walk_step(*e, old(prefetched)@, final(prefetched)@),
        final(prefetched)@.len() <= old(prefetched)@.len() + 1,
        final(prefetched)@.len() > old(prefetched)@.len() ==> {
            &&& final(prefetched)@.last().0@ == e.path@
            &&& final(prefetched)@.last().1 == extents_size(e.extents@)
            &&& !holds_path(old(prefetched)@, e.path@)
        },
        grows(old(groups)@, final(groups)@),
        forall|gi: int, y: FileExtent|
            0 <= gi < final(groups)@.len() && #[trigger] final(groups)@[gi].1@.contains(y) ==> (gi < old(groups)@.len()
                && old(groups)@[gi].1@.contains(y)) || (final(prefetched)@.len() > old(prefetched)@.len()
                && e.extents@.contains(y)),
        final(prefetched)@.len() > old(prefetched)@.len() ==> grouped(final(groups)@, mounts@, *e),
{
    if *remaining == 0 {
        return true;
    }
    if prefetched.len() > cap + 1 {
        return true;
    }
    match find_path(prefetched, e.path()) {
        Some(_) => {
            return false;
        },
        None => {},
    }
    let size = e.extent_sum();
    let ghost before = prefetched@;
    *remaining = remaining.saturating_sub(size);
    prefetched.push((copy_bytes(&e.path), size));
    proof {
        assert(prefetched@.drop_last() =~= before);
        assert(prefetched@.subrange(0, before.len() as int) =~= before);
        let j = before.len() as int;
        assert(prefetched@[j].1 == size);
        assert forall|a: int, b: int| 0 <= a < b < prefetched@.len() implies (#[trigger] prefetched@[a]).0@ != (#[trigger] prefetched@[b]).0@ by {
            assert(prefetched@[a] == before[a]);
            if b < j {
                assert(prefetched@[b] == before[b]);
            }
        }
    }
    match find_mount(mounts, e.path()) {
        Some(m) => {
            if is_ext(mounts[m].vfstype.as_slice()) {
                let mut g: usize = 0;
                while g < groups.len() && !bytes_eq(groups[g].0.as_slice(), mounts[m].spec.as_slice())
                    invariant
                        g <= groups@.len(),
                        m < mounts@.len(),
                        forall|k: int| 0 <= k < g ==> (#[trigger] groups@[k]).0@ != mounts@[m as int].spec@,
                    decreases groups@.len() - g,
                {
                    g = g + 1;
                }
                if g == groups.len() {
                    groups.push((copy_bytes(&mounts[m].spec), Vec::new()));
                    assert(names_ext_device(groups@[g as int].0@, mounts@));
                    assert(groups_ok(groups@, mounts@)) by {
                        assert forall|k: int| 0 <= k < groups@.len() implies names_ext_device((#[trigger] groups@[k]).0@, mounts@) by {
                            if k < g {
                                assert(groups@[k] == old(groups)@[k]);
                            }
                        }
                        assert forall|a: int, b: int| 0 <= a < b < groups@.len() implies (#[trigger] groups@[a]).0@ != (#[trigger] groups@[b]).0@ by {
                            assert(groups@[a] == old(groups)@[a]);
                            if b < g {
                                assert(groups@[b] == old(groups)@[b]);
                            }
                        }
                    }
                }
                let ghost gs = groups@;
                let (spec, mut exts) = groups.remove(g);
                let ghost ex0 = exts@;
                let mut x: usize = 0;
                while x < e.extents.len()
                    invariant
                        x <= e.extents@.len(),
                        exts@ == ex0 + e.extents@.subrange(0, x as int),
                    decreases e.extents@.len() - x,
                {
                    exts.push(e.extents[x]);
                    x = x + 1;
                    assert(exts@ =~= ex0 + e.extents@.subrange(0, x as int));
                }
                assert(exts@ =~= ex0 + e.extents@);
                groups.insert(g, (spec, exts));
                proof {
                    assert(groups@[g as int].0@ == mounts@[m as int].spec@);
                    assert forall|xi: int| 0 <= xi < e.extents@.len() implies groups@[g as int].1@.contains(#[trigger] e.extents@[xi]) by {
                        assert(groups@[g as int].1@[ex0.len() + xi] == e.extents@[xi]);
                    }
                    assert forall|mm: int|
                        #[trigger] is_mount_of(mounts@, e.path@, mm) && is_ext_family(mounts@[mm].vfstype@) implies exists|gi: int|
                            0 <= gi < groups@.len() && (#[trigger] groups@[gi]).0@ == mounts@[mm].spec@ && forall|xi: int|
                                0 <= xi < e.extents@.len() ==> groups@[gi].1@.contains(#[trigger] e.extents@[xi]) by {
                        if mm < m {
                            assert(path_under(e.path@, mounts@[m as int].file@));
                        } else if mm > m {
                            assert(!path_under(e.path@, mounts@[mm].file@));
                        }
                        assert(mm == m);
                    }
                    assert forall|gi: int| 0 <= gi < old(groups)@.len() implies (#[trigger] groups@[gi]).0@ == old(groups)@[gi].0@ && forall|y: FileExtent|
                        old(groups)@[gi].1@.contains(y) ==> #[trigger] groups@[gi].1@.contains(y) by {
                        if gi != g {
                            assert(groups@[gi] == gs[gi]);
                            assert(gs[gi] == old(groups)@[gi]);
                        } else {
                            assert(gs[gi] == old(groups)@[gi]);
                            assert forall|y: FileExtent| old(groups)@[gi].1@.contains(y) implies #[trigger] groups@[gi].1@.contains(y) by {
                                let w = choose|w: int| 0 <= w < ex0.len() && ex0[w] == y;
                                assert(groups@[gi].1@[w] == y);
                            }
                        }
                    }
                    assert forall|gi: int, y: FileExtent|
                        0 <= gi < groups@.len() && #[trigger] groups@[gi].1@.contains(y) implies (gi < old(groups)@.len()
                            && old(groups)@[gi].1@.contains(y)) || e.extents@.contains(y) by {
                        if gi != g {
                            assert(groups@[gi] == gs[gi]);
                            assert(gs[gi] == old(groups)@[gi]);
                        } else {
                            let w = choose|w: int| 0 <= w < groups@[gi].1@.len() && groups@[gi].1@[w] == y;
                            if w >= ex0.len() {
                                assert(e.extents@[w - ex0.len()] == y);
                            } else if gi < old(groups)@.len() {
                                assert(gs[gi] == old(groups)@[gi]);
                                assert(old(groups)@[gi].1@[w] == y);
                            } else {
                                assert(ex0.len() == 0);
                            }
                        }
                    }
                }
                assert(groups_ok(groups@, mounts@)) by {
                    assert forall|k: int| 0 <= k < groups@.len() implies names_ext_device((#[trigger] groups@[k]).0@, mounts@) by {
                        if k != g {
                            assert(groups@[k] == gs[k]);
                        } else {
                            assert(groups@[k].0 == gs[k].0);
                        }
                    }
                    assert forall|a: int, b: int| 0 <= a < b < groups@.len() implies (#[trigger] groups@[a]).0@ != (#[trigger] groups@[b]).0@ by {
                        assert(groups@[a].0 == gs[a].0);
                        assert(groups@[b].0 == gs[b].0);
                    }
                }
            }
        },
        None => {},
    }
    false
}

/// The position of a path among the recorded hints.
pub fn find_path(v: &Vec<(Vec<u8>, u64)>, path: &[u8]) -> (r: Option<usize>)
    ensures
        r is None ==> !holds_path(v@, path@),
        r is Some ==> r->0 < v@.len() && v@[r->0 as int].0@ == path@,
{
    let mut i: usize = 0;
    while i < v.len()
        invariant
            i <= v@.len(),
            forall|m: int| 0 <= m < i ==> v@[m].0@ != path@,
        decreases v@.len() - i,
    {
        if crate::entry::bytes_eq(v[i].0.as_slice(), path) {
            return Some(i);
        }
        i = i + 1;
    }
    None
}

/// What the walk asks of its caller next.
#[derive(Debug)]
pub enum Step {
    /// Issue these read-ahead hints, then open this directory; report
    /// success with `dir_opened`.
    Open(Entry, Vec<DeviceHints>),
    /// Read the next child of the open directory and report it with
    /// `child`, or report the end with `dir_done`.
    Read,
    /// Look up the extents of these paths, in this order, and hand them to
    /// `place_batch`.
    Locate(Vec<Vec<u8>>),
    /// This entry is the next result.
    Emit(Entry),
    /// The walk is over.
    Done,
}

/// The state of a layout-ordered walk.
pub struct ToScan {
    /// Pending directories keyed by the physical offset of their first extent.
    pub phy_sorted: Vec<(u64, Entry)>,
    /// A finished batch keyed by content offset, smallest key last.
    pub phy_sorted_leaves: Vec<(u64, Entry)>,
    /// Pending directories without a usable offset, first in first out.
    pub unordered: VecDeque<Entry>,
    /// The last offset served from `phy_sorted`.
    pub cursor: u64,
    /// Whether a directory is open and being read.
    pub dir_open: bool,
    /// Entries awaiting a sorted pass.
    pub inode_ordered: Vec<Entry>,
    pub phase: Phase,
    pub order: Order,
    pub batch_size: usize,
    /// Paths with outstanding read-ahead and the bytes hinted for each.
    pub prefetched: Vec<(Vec<u8>, u64)>,
    /// Mount table snapshot; empty when prefetching is off.
    pub mountpoints: Vec<Mount>,
    /// Adaptive bound on the number of outstanding hints.
    pub prefetch_cap: usize,
}

impl ToScan {
    /// The directory queue is keyed by ascending offset, the finished batch
    /// by descending offset; an inode pass has a non-empty batch sorted by
    /// descending inode; the content pass runs exactly while its buffer is
    /// non-empty; the cap is bounded and the read-ahead budget is kept.
    pub open spec fn wf(&self) -> bool {
        &&& keys_ascending(self.phy_sorted@)
        &&& keys_descending(self.phy_sorted_leaves@)
        &&& (self.phase == Phase::InodePass ==> self.inode_ordered@.len() > 0
            && inodes_descending(self.inode_ordered@))
        &&& (self.phase == Phase::ContentPass <==> self.phy_sorted_leaves@.len() > 0)
        &&& self.prefetch_cap <= MAX_CAP
        &&& budget_ok(self.prefetched@)
        &&& paths_distinct(self.prefetched@)
    }

    /// No directory is pending or open.
    pub open spec fn walk_empty(&self) -> bool {
        &&& self.phy_sorted@.len() == 0
        &&& self.unordered@.len() == 0
        &&& !self.dir_open
    }

    /// Nothing is left to visit or to emit.
    pub open spec fn exhausted(&self) -> bool {
        &&& self.walk_empty()
        &&& self.inode_ordered@.len() == 0
        &&& self.phy_sorted_leaves@.len() == 0
    }

    /// Everything but the directory queue and its cursor is the same.
    pub open spec fn same_buffers(&self, o: &ToScan) -> bool {
        &&& self.phy_sorted_leaves == o.phy_sorted_leaves
        &&& self.dir_open == o.dir_open
        &&& self.inode_ordered == o.inode_ordered
        &&& self.phase == o.phase
        &&& self.order == o.order
        &&& self.batch_size == o.batch_size
        &&& self.prefetched == o.prefetched
        &&& self.mountpoints == o.mountpoints
        &&& self.prefetch_cap == o.prefetch_cap
    }

    /// The entries buffered for a sorted pass, in either buffer.
    pub open spec fn held(&self) -> Multiset<Entry> {
        self.inode_ordered@.to_multiset().add(leaf_entries(self.phy_sorted_leaves@).to_multiset())
    }

    /// `self` is `o` with a new entry `e` for this path, inode number and
    /// kind added to the batch, and the batch sorted once it is full.
    pub open spec fn buffered(&self, o: &ToScan, e: Entry, path: Seq<u8>, ino: u64, ft: FileKind) -> bool {
        &&& e.path@ == path
        &&& e.ino == ino
        &&& e.ftype == ft
        &&& e.extents@.len() == 0
        &&& self.held() == o.held().insert(e)
        &&& self.inode_ordered@.to_multiset() == o.inode_ordered@.push(e).to_multiset()
        &&& (o.inode_ordered@.len() + 1 >= o.batch_size ==> self.phase == Phase::InodePass)
        &&& (o.inode_ordered@.len() + 1 < o.batch_size ==> self.phase == Phase::DirWalk
            && self.inode_ordered@ == o.inode_ordered@.push(e))
    }

    /// The directory queue, the cursor, the settings and the read-ahead
    /// state are the same.
    pub open spec fn same_queue(&self, o: &ToScan) -> bool {
        &&& self.phy_sorted == o.phy_sorted
        &&& self.unordered == o.unordered
        &&& self.cursor == o.cursor
        &&& self.dir_open == o.dir_open
        &&& self.order == o.order
        &&& self.batch_size == o.batch_size
        &&& self.prefetched == o.prefetched
        &&& self.mountpoints == o.mountpoints
        &&& self.prefetch_cap == o.prefetch_cap
    }

    pub fn new() -> (r: ToScan)
        ensures
            r.wf(),
            r.exhausted(),
            r.phase == Phase::DirWalk,
            r.order == Order::Dentries,
            r.batch_size == DEFAULT_BATCH,
            r.cursor == 0,
            r.prefetched@.len() == 0,
            r.mountpoints@.len() == 0,
            r.prefetch_cap == 0,
    {
        ToScan {
            phy_sorted: Vec::new(),
            phy_sorted_leaves: Vec::new(),
            unordered: VecDeque::new(),
            cursor: 0,
            dir_open: false,
            inode_ordered: Vec::new(),
            phase: Phase::DirWalk,
            order: Order::Dentries,
            batch_size: DEFAULT_BATCH,
            prefetched: Vec::new(),
            mountpoints: Vec::new(),
            prefetch_cap: 0,
        }
    }

    /// Whether no directory is pending or open.
    pub fn is_empty(&self) -> (r: bool)
        ensures
            r == self.walk_empty(),
    {
        self.phy_sorted.len() == 0 && self.unordered.len() == 0 && !self.dir_open
    }

    /// Queues a directory, at a physical offset where one is given. A
    /// directory already queued at that offset moves to the unordered queue.
    pub fn add(&mut self, to_add: Entry, pos: Option<u64>)
        requires
            keys_ascending(old(self).phy_sorted@),
        ensures
            keys_ascending(final(self).phy_sorted@),
            final(self).same_buffers(old(self)),
            final(self).cursor == old(self).cursor,
            pos is None ==> final(self).unordered@ == old(self).unordered@.push(to_add)
                && final(self).phy_sorted@ == old(self).phy_sorted@,
            pos is Some && has_key(old(self).phy_sorted@, pos->0) ==> exists|i: int|
                0 <= i < old(self).phy_sorted@.len() && old(self).phy_sorted@[i].0 == pos->0
                    && final(self).phy_sorted@ == old(self).phy_sorted@.update(i, (pos->0, to_add))
                    && final(self).unordered@ == old(self).unordered@.push(
                    old(self).phy_sorted@[i].1,
                ),
            pos is Some && !has_key(old(self).phy_sorted@, pos->0) ==> exists|i: int|
                0 <= i <= old(self).phy_sorted@.len() && final(self).phy_sorted@
                    == old(self).phy_sorted@.insert(i, (pos->0, to_add))
                    && final(self).unordered@ == old(self).unordered@,
    {
        match pos {
            Some(k) => {
                let mut j: usize = 0;
                while j < self.phy_sorted.len() && self.phy_sorted[j].0 < k
                    invariant
                        j <= self.phy_sorted@.len(),
                        forall|m: int| 0 <= m < j ==> self.phy_sorted@[m].0 < k,
                    decreases self.phy_sorted@.len() - j,
                {
                    j = j + 1;
                }
                let ghost s = self.phy_sorted@;
                if j < self.phy_sorted.len() && self.phy_sorted[j].0 == k {
                    let displaced = self.phy_sorted.remove(j);
                    self.phy_sorted.insert(j, (k, to_add));
                    assert(self.phy_sorted@ =~= s.update(j as int, (k, to_add)));
                    self.unordered.push_back(displaced.1);
                } else {
                    assert(!has_key(s, k)) by {
                        assert forall|m: int| 0 <= m < s.len() implies s[m].0 != k by {
                            if m > j {
                                assert(s[j as int].0 < s[m].0);
                            }
                        }
                    }
                    self.phy_sorted.insert(j, (k, to_add));
                    assert(keys_ascending(self.phy_sorted@)) by {
                        assert forall|a: int, b: int|
                            0 <= a < b < self.phy_sorted@.len() implies self.phy_sorted@[a].0
                            < self.phy_sorted@[b].0 by {
                            if a < j && b > j {
                                assert(s[b - 1].0 >= s[j as int].0 || b - 1 == j);
                            }
                        }
                    }
                }
            },
            None => {
                self.unordered.push_back(to_add);
            },
        }
    }

    /// Queues a root directory, unordered.
    pub fn add_root(&mut self, path: Vec<u8>, ino: u64, ft: FileKind)
        requires
            keys_ascending(old(self).phy_sorted@),
        ensures
            final(self).same_buffers(old(self)),
            final(self).cursor == old(self).cursor,
            final(self).phy_sorted@ == old(self).phy_sorted@,
            final(self).unordered@.len() == old(self).unordered@.len() + 1,
            final(self).unordered@.drop_last() == old(self).unordered@,
            final(self).unordered@.last().path@ == path@,
            final(self).unordered@.last().ino == ino,
            final(self).unordered@.last().ftype == ft,
            final(self).unordered@.last().extents@.len() == 0,
    {
        let e = Entry::new(path, ft, ino, Vec::new());
        self.add(e, None);
    }

    /// Takes the next directory: the front of the unordered queue, else the
    /// directory with the smallest offset at or after the cursor.
    fn get_next(&mut self) -> (r: Option<Entry>)
        requires
            keys_ascending(old(self).phy_sorted@),
        ensures
            keys_ascending(final(self).phy_sorted@),
            final(self).same_buffers(old(self)),
            old(self).unordered@.len() > 0 ==> r == Some(old(self).unordered@[0])
                && final(self).unordered@ == old(self).unordered@.drop_first()
                && final(self).phy_sorted@ == old(self).phy_sorted@
                && final(self).cursor == old(self).cursor,
            old(self).unordered@.len() == 0 ==> final(self).unordered@ == old(self).unordered@,
            old(self).unordered@.len() == 0 && r is Some ==> exists|i: int|
                0 <= i < old(self).phy_sorted@.len()
                    && old(self).phy_sorted@[i].0 >= old(self).cursor
                    && (forall|j: int| 0 <= j < i ==> old(self).phy_sorted@[j].0 < old(self).cursor)
                    && r == Some(old(self).phy_sorted@[i].1)
                    && final(self).cursor == old(self).phy_sorted@[i].0
                    && final(self).phy_sorted@ == old(self).phy_sorted@.remove(i),
            old(self).unordered@.len() == 0 && r is None ==> final(self).phy_sorted@
                == old(self).phy_sorted@ && final(self).cursor == old(self).cursor
                && forall|j: int| 0 <= j < old(self).phy_sorted@.len()
                    ==> old(self).phy_sorted@[j].0 < old(self).cursor,
    {
        if self.unordered.len() > 0 {
            let r = self.unordered.pop_front();
            assert(self.unordered@ =~= old(self).unordered@.drop_first());
            return r;
        }
        let mut j: usize = 0;
        while j < self.phy_sorted.len() && self.phy_sorted[j].0 < self.cursor
            invariant
                j <= self.phy_sorted@.len(),
                forall|m: int| 0 <= m < j ==> self.phy_sorted@[m].0 < self.cursor,
            decreases self.phy_sorted@.len() - j,
        {
            j = j + 1;
        }
        if j < self.phy_sorted.len() {
            let (k, e) = self.phy_sorted.remove(j);
            self.cursor = k;
            Some(e)
        } else {
            None
        }
    }

    /// Records that the directory handed out by `Open` could be opened.
    pub fn dir_opened(&mut self)
        ensures
            *final(self) == (ToScan { dir_open: true, ..*old(self) }),
    {
        self.dir_open = true;
    }

    /// Records that the open directory has no more children.
    pub fn dir_done(&mut self)
        ensures
            *final(self) == (ToScan { dir_open: false, ..*old(self) }),
    {
        self.dir_open = false;
    }

    pub fn set_order(&mut self, ord: Order)
        ensures
            *final(self) == (ToScan { order: ord, ..*old(self) }),
    {
        self.order = ord;
    }

    pub fn set_batchsize(&mut self, batch: usize)
        ensures
            *final(self) == (ToScan { batch_size: batch, ..*old(self) }),
    {
        self.batch_size = batch;
    }

    /// Reports one child of the open directory: its path, kind, inode
    /// number, its extents where it is a directory, and whether it passes
    /// the caller's filter. A directory is queued whether or not it passes;
    /// an entry that passes is returned at once or buffered, by the order.
    pub fn child(
        &mut self,
        path: Vec<u8>,
        ft: FileKind,
        ino: u64,
        extents: Vec<FileExtent>,
        passes: bool,
    ) -> (r: Option<Entry>)
        requires
            old(self).wf(),
            old(self).phase == Phase::DirWalk,
        ensures
            final(self).wf(),
            final(self).cursor == old(self).cursor,
            final(self).dir_open == old(self).dir_open,
            final(self).phy_sorted_leaves == old(self).phy_sorted_leaves,
            final(self).order == old(self).order,
            final(self).batch_size == old(self).batch_size,
            final(self).prefetched == old(self).prefetched,
            final(self).mountpoints == old(self).mountpoints,
            final(self).prefetch_cap == old(self).prefetch_cap,
            ft == FileKind::Directory && extents@.len() > 0 ==> exists|d: Entry|
                #[trigger] keyed_add(
                    old(self).phy_sorted@,
                    old(self).unordered@,
                    final(self).phy_sorted@,
                    final(self).unordered@,
                    extents@[0].physical,
                    d,
                ) && d.path@ == path@ && d.ino == ino && d.ftype == ft && d.extents@ == extents@,
            ft == FileKind::Directory && extents@.len() == 0 ==> final(self).phy_sorted@
                == old(self).phy_sorted@ && final(self).unordered@.drop_last()
                == old(self).unordered@ && final(self).unordered@.len()
                == old(self).unordered@.len() + 1 && final(self).unordered@.last().path@ == path@
                && final(self).unordered@.last().ino == ino,
            ft != FileKind::Directory ==> final(self).phy_sorted@ == old(self).phy_sorted@
                && final(self).unordered@ == old(self).unordered@,
            !passes ==> r is None && final(self).inode_ordered == old(self).inode_ordered
                && final(self).phase == old(self).phase,
            passes && old(self).order == Order::Dentries ==> r is Some && r->0.path@ == path@
                && r->0.ino == ino && r->0.ftype == ft && r->0.extents@.len() == 0
                && final(self).inode_ordered == old(self).inode_ordered && final(self).phase
                == old(self).phase,
            passes && old(self).order != Order::Dentries ==> r is None && exists|e: Entry|
                #[trigger] final(self).buffered(old(self), e, path@, ino, ft),
    {
        if ft.is_dir() {
            let p = copy_bytes(&path);
            if extents.len() > 0 {
                let off = extents[0].physical;
                let ghost ext = extents@;
                let ghost s = self.phy_sorted@;
                let d = Entry::new(p, ft, ino, extents);
                self.add(d, Some(off));
                assert(keyed_add(
                    old(self).phy_sorted@,
                    old(self).unordered@,
                    self.phy_sorted@,
                    self.unordered@,
                    ext[0].physical,
                    d,
                ));
            } else {
                let d = Entry::new(p, ft, ino, extents);
                self.add(d, None);
                assert(self.unordered@.drop_last() =~= old(self).unordered@);
            }
        }
        let ghost qp = self.phy_sorted;
        let ghost qu = self.unordered;
        if !passes {
            return None;
        }
        let e = Entry::new(path, ft, ino, Vec::new());
        match self.order {
            Order::Dentries => {
                return Some(e);
            },
            _ => {},
        }
        let ghost e0 = e;
        self.inode_ordered.push(e);
        proof {
            broadcast use vstd::seq_lib::group_to_multiset_ensures;

            assert(self.inode_ordered@ == old(self).inode_ordered@.push(e0));
        }
        if self.inode_ordered.len() >= self.batch_size {
            self.start_inode_pass();
        }
        assert(self.phy_sorted == qp && self.unordered == qu);
        assert(self.held() =~= old(self).held().insert(e0));
        assert(self.buffered(old(self), e0, path@, ino, ft));
        None
    }

    /// Sorts the buffered batch by inode number and enters the inode pass.
    fn start_inode_pass(&mut self)
        requires
            old(self).inode_ordered@.len() > 0,
        ensures
            final(self).inode_ordered@.to_multiset() == old(self).inode_ordered@.to_multiset(),
            final(self).inode_ordered@.len() == old(self).inode_ordered@.len(),
            inodes_descending(final(self).inode_ordered@),
            *final(self) == (ToScan {
                inode_ordered: final(self).inode_ordered,
                phase: Phase::InodePass,
                ..*old(self)
            }),
    {
        let mut v: Vec<Entry> = Vec::new();
        std::mem::swap(&mut v, &mut self.inode_ordered);
        let ghost vs = v@;
        self.inode_ordered = sort_by_inode_desc(v);
        proof {
            broadcast use vstd::seq_lib::group_to_multiset_ensures;

            assert(vs.to_multiset().len() == vs.len());
            assert(self.inode_ordered@.to_multiset().len() == self.inode_ordered@.len());
        }
        self.phase = Phase::InodePass;
    }

    /// Takes the buffered batch into the content pass. The `k`th entry
    /// taken (smallest inode first) is keyed by the first offset of
    /// `extents[k]`, or zero where that list is empty or missing.
    pub fn place_batch(&mut self, extents: Vec<Vec<FileExtent>>)
        requires
            old(self).wf(),
        ensures
            final(self).wf(),
            final(self).held() == old(self).held(),
            !(old(self).phase == Phase::InodePass && old(self).order == Order::Content) ==> *final(
                self) == *old(self),
            old(self).phase == Phase::InodePass && old(self).order == Order::Content ==> {
                &&& final(self).phase == Phase::ContentPass
                &&& final(self).inode_ordered@.len() == 0
                &&& final(self).phy_sorted_leaves@.to_multiset() == batch_pairs(
                    old(self).inode_ordered@,
                    extents@,
                    old(self).inode_ordered@.len(),
                ).to_multiset()
                &&& final(self).phy_sorted == old(self).phy_sorted
                &&& final(self).unordered == old(self).unordered
                &&& final(self).cursor == old(self).cursor
                &&& final(self).dir_open == old(self).dir_open
                &&& final(self).order == old(self).order
                &&& final(self).batch_size == old(self).batch_size
                &&& final(self).prefetched == old(self).prefetched
                &&& final(self).mountpoints == old(self).mountpoints
                &&& final(self).prefetch_cap == old(self).prefetch_cap
            },
    {
        if !(self.phase == Phase::InodePass && self.order == Order::Content) {
            return;
        }
        let ghost batch = self.inode_ordered@;
        let ghost n = batch.len();
        let mut v: Vec<Entry> = Vec::new();
        std::mem::swap(&mut v, &mut self.inode_ordered);
        let mut k: usize = 0;
        assert(batch_pairs(batch, extents@, 0).to_multiset() =~= Multiset::empty()) by {
            broadcast use vstd::seq_lib::group_to_multiset_ensures;
        }
        assert(self.phy_sorted_leaves@.to_multiset() =~= Multiset::empty()) by {
            broadcast use vstd::seq_lib::group_to_multiset_ensures;
        }
        assert(v@ =~= batch.subrange(0, n - 0));
        assert(leaf_entries(self.phy_sorted_leaves@).to_multiset().add(v@.to_multiset()) =~= batch.to_multiset()) by {
            broadcast use vstd::seq_lib::group_to_multiset_ensures;

            assert(leaf_entries(self.phy_sorted_leaves@) =~= Seq::<Entry>::empty());
            assert(v@ =~= batch);
        }
        let total = v.len();
        while v.len() > 0
            invariant
                n == batch.len(),
                n == total,
                k + v@.len() == n,
                self.inode_ordered@.len() == 0,
                self.phase == Phase::InodePass,
                self.phy_sorted == old(self).phy_sorted,
                self.unordered == old(self).unordered,
                self.cursor == old(self).cursor,
                self.dir_open == old(self).dir_open,
                self.order == old(self).order,
                self.batch_size == old(self).batch_size,
                self.prefetched == old(self).prefetched,
                self.mountpoints == old(self).mountpoints,
                self.prefetch_cap == old(self).prefetch_cap,
                v@ == batch.subrange(0, n - k),
                self.phy_sorted_leaves@.len() == k,
                keys_descending(self.phy_sorted_leaves@),
                self.phy_sorted_leaves@.to_multiset() == batch_pairs(batch, extents@, k as nat).to_multiset(),
                leaf_entries(self.phy_sorted_leaves@).to_multiset().add(v@.to_multiset()) == batch.to_multiset(),
            decreases v@.len(),
        {
            let ghost vb = v@;
            let e = v.pop().unwrap();
            proof {
                lemma_pop_multiset(vb);
            }
            let off = if k < extents.len() {
                first_extent_offset(&extents[k])
            } else {
                0
            };
            let mut j: usize = 0;
            while j < self.phy_sorted_leaves.len() && self.phy_sorted_leaves[j].0 > off
                invariant
                    j <= self.phy_sorted_leaves@.len(),
                    forall|m: int| 0 <= m < j ==> self.phy_sorted_leaves@[m].0 > off,
                decreases self.phy_sorted_leaves@.len() - j,
            {
                j = j + 1;
            }
            let ghost ls = self.phy_sorted_leaves@;
            proof {
                broadcast use vstd::seq_lib::group_to_multiset_ensures;

                lemma_insert_multiset(ls, j as int, (off, e));
                lemma_insert_multiset(leaf_entries(ls), j as int, e);
                assert(leaf_entries(ls.insert(j as int, (off, e))) =~= leaf_entries(ls).insert(j as int, e));
                assert(e == batch[n - 1 - k]);
                assert(off == batch_offset(extents@, k as int));
                assert(batch_pairs(batch, extents@, (k + 1) as nat) =~= batch_pairs(
                    batch,
                    extents@,
                    k as nat,
                ).push((off, e)));
            }
            self.phy_sorted_leaves.insert(j, (off, e));
            assert(keys_descending(self.phy_sorted_leaves@)) by {
                assert forall|a: int, b: int|
                    0 <= a < b < self.phy_sorted_leaves@.len() implies self.phy_sorted_leaves@[a].0
                    >= self.phy_sorted_leaves@[b].0 by {
                    if a < j && b > j {
                        assert(ls[b - 1].0 <= ls[j as int].0 || b - 1 == j);
                    }
                }
            }
            assert(leaf_entries(self.phy_sorted_leaves@).to_multiset().add(v@.to_multiset()) =~= batch.to_multiset());
            k = k + 1;
        }
        proof {
            broadcast use vstd::seq_lib::group_to_multiset_ensures;

            assert(v@.len() == 0);
            assert(v@.to_multiset() =~= Multiset::empty());
            assert(old(self).phy_sorted_leaves@.len() == 0);
            assert(leaf_entries(old(self).phy_sorted_leaves@) =~= Seq::<Entry>::empty());
            assert(self.held() =~= old(self).held());
        }
        self.phase = Phase::ContentPass;
    }

    /// The next thing the walk needs: a directory to open, a child to read,
    /// extents to look up, an entry to hand out, or nothing more.
    pub fn step(&mut self) -> (r: Step)
        requires
            old(self).wf(),
        ensures
            final(self).wf(),
            !(r is Open) ==> final(self).same_queue(old(self)),
            r is Emit ==> old(self).held() == final(self).held().insert(r->Emit_0),
            r is Open ==> forall|g: int|
                0 <= g < r->Open_1@.len() ==> hint_ok(#[trigger] r->Open_1@[g], old(self).mountpoints@),
            r is Open ==> forall|a: int, b: int|
                0 <= a < b < r->Open_1@.len() ==> (#[trigger] r->Open_1@[a]).spec@
                    != (#[trigger] r->Open_1@[b]).spec@,
            !(r is Emit) ==> final(self).held() == old(self).held(),
            r is Open ==> {
                &&& !final(self).dir_open
                &&& final(self).phase == old(self).phase
                &&& final(self).inode_ordered == old(self).inode_ordered
                &&& final(self).phy_sorted_leaves == old(self).phy_sorted_leaves
                &&& final(self).order == old(self).order
                &&& final(self).batch_size == old(self).batch_size
                &&& final(self).mountpoints == old(self).mountpoints
            },
            r is Open && old(self).unordered@.len() > 0 ==> final(self).phy_sorted@
                == old(self).phy_sorted@ && final(self).cursor == old(self).cursor,
            r is Done <==> old(self).exhausted(),
            r is Done ==> *final(self) == *old(self),
            r is Read <==> old(self).phase == Phase::DirWalk && old(self).dir_open,
            r is Read ==> *final(self) == *old(self),
            r is Open <==> old(self).phase == Phase::DirWalk && !old(self).walk_empty()
                && !old(self).dir_open,
            r is Open && old(self).unordered@.len() > 0 ==> r->Open_0 == old(self).unordered@[0]
                && final(self).unordered@ == old(self).unordered@.drop_first(),
            r is Open && old(self).unordered@.len() == 0 ==> exists|i: int|
                0 <= i < old(self).phy_sorted@.len() && r->Open_0 == old(self).phy_sorted@[i].1
                    && final(self).phy_sorted@ == old(self).phy_sorted@.remove(i)
                    && final(self).cursor == old(self).phy_sorted@[i].0
                    && #[trigger] sweep_pick(old(self).phy_sorted@, old(self).cursor, i),
            r is Open ==> exists|mid: Seq<(Vec<u8>, u64)>|
                prefetch_result(old(self), mid) && (exists|es: Seq<Entry>|
                    #[trigger] hints_cover_new(old(self), mid, r->Open_1@, es)) && #[trigger] feedback(
                    mid,
                    r->Open_0.path@,
                    old(self).prefetch_cap as nat,
                    final(self).prefetched@,
                    final(self).prefetch_cap as nat,
                ),
            r is Emit && old(self).phase != Phase::ContentPass ==> final(self).phase == if final(self).inode_ordered@.len() == 0 {
                Phase::DirWalk
            } else {
                Phase::InodePass
            },
            old(self).phase == Phase::ContentPass ==> final(self).phase == if final(self).phy_sorted_leaves@.len() == 0 {
                Phase::DirWalk
            } else {
                Phase::ContentPass
            },
            r is Locate ==> old(self).order == Order::Content && final(self).phase
                == Phase::InodePass && r->Locate_0@.len() == final(self).inode_ordered@.len()
                && forall|k: int|
                0 <= k < r->Locate_0@.len() ==> (#[trigger] r->Locate_0@[k])@
                    == final(self).inode_ordered@[final(self).inode_ordered@.len() - 1 - k].path@,
            r is Emit && old(self).phase != Phase::ContentPass ==> old(self).order
                != Order::Content && old(self).inode_ordered@.to_multiset()
                == final(self).inode_ordered@.to_multiset().insert(r->Emit_0) && forall|m: int|
                0 <= m < final(self).inode_ordered@.len() ==> r->Emit_0.ino
                    <= #[trigger] final(self).inode_ordered@[m].ino,
            old(self).phase == Phase::InodePass && old(self).order != Order::Content ==> r is Emit
                && r->Emit_0 == old(self).inode_ordered@.last() && final(self).inode_ordered@
                == old(self).inode_ordered@.drop_last(),
            old(self).phase == Phase::ContentPass ==> r is Emit && r->Emit_0
                == old(self).phy_sorted_leaves@.last().1 && final(self).phy_sorted_leaves@
                == old(self).phy_sorted_leaves@.drop_last() && forall|m: int|
                0 <= m < final(self).phy_sorted_leaves@.len()
                    ==> old(self).phy_sorted_leaves@.last().0
                    <= #[trigger] final(self).phy_sorted_leaves@[m].0,
    {
        if self.phase == Phase::DirWalk {
            if !self.is_empty() {
                if self.dir_open {
                    return Step::Read;
                }
                let hints = self.prefetch();
                let ghost mid = self.prefetched@;
                assert(exists|es: Seq<Entry>| #[trigger] hints_cover_new(old(self), mid, hints@, es));
                let ghost s0 = self.phy_sorted@;
                let mut next = self.get_next();
                if next.is_none() {
                    self.cursor = 0;
                    let ghost s = self.phy_sorted@;
                    next = self.get_next();
                    proof {
                        if next is None {
                            assert(s.len() > 0);
                            assert(s[0].0 < 0u64);
                        } else if old(self).unordered@.len() == 0 {
                            let i = choose|i: int|
                                0 <= i < s.len() && s[i].0 >= 0 && (forall|j: int|
                                    0 <= j < i ==> s[j].0 < 0) && next == Some(s[i].1)
                                    && self.phy_sorted@ == s.remove(i) && self.cursor == s[i].0;
                            if i > 0 {
                                assert(s[0].0 < 0);
                            }
                            assert(sweep_pick(s0, old(self).cursor, i));
                        }
                    }
                } else {
                    proof {
                        if old(self).unordered@.len() == 0 {
                            let i = choose|i: int|
                                0 <= i < s0.len() && s0[i].0 >= old(self).cursor && (forall|j: int|
                                    0 <= j < i ==> s0[j].0 < old(self).cursor) && next == Some(s0[i].1)
                                    && self.phy_sorted@ == s0.remove(i) && self.cursor == s0[i].0;
                            assert(sweep_pick(s0, old(self).cursor, i));
                        }
                    }
                }
                match next {
                    Some(e) => {
                        let ghost cap0 = self.prefetch_cap;
                        self.remove_prefetch(e.path());
                        assert(feedback(mid, e.path@, cap0 as nat, self.prefetched@, self.prefetch_cap as nat));
                        let ghost hv = hints@;
                        assert(prefetch_result(old(self), mid) && (exists|es: Seq<Entry>|
                            #[trigger] hints_cover_new(old(self), mid, hv, es)) && feedback(
                            mid,
                            e.path@,
                            old(self).prefetch_cap as nat,
                            self.prefetched@,
                            self.prefetch_cap as nat,
                        ));
                        let r = Step::Open(e, hints);
                        assert(r->Open_1@ == hv);
                        return r;
                    },
                    None => {
                        return Step::Done;
                    },
                }
            }
            if self.inode_ordered.len() > 0 {
                self.start_inode_pass();
            }
        }
        if self.phase == Phase::InodePass {
            match self.order {
                Order::Content => {
                    let n = self.inode_ordered.len();
                    let mut paths: Vec<Vec<u8>> = Vec::new();
                    let mut k: usize = 0;
                    while k < n
                        invariant
                            n == self.inode_ordered@.len(),
                            k <= n,
                            paths@.len() == k,
                            forall|m: int|
                                0 <= m < k ==> (#[trigger] paths@[m])@
                                    == self.inode_ordered@[n - 1 - m].path@,
                        decreases n - k,
                    {
                        let p = copy_bytes(&self.inode_ordered[n - 1 - k].path);
                        paths.push(p);
                        k = k + 1;
                    }
                    return Step::Locate(paths);
                },
                _ => {
                    let ghost before = self.inode_ordered@;
                    let e = self.inode_ordered.pop().unwrap();
                    proof {
                        lemma_pop_multiset(before);
                    }
                    if self.inode_ordered.len() == 0 {
                        self.phase = Phase::DirWalk;
                    }
                    return Step::Emit(e);
                },
            }
        }
        if self.phase == Phase::ContentPass {
            let ghost lb = self.phy_sorted_leaves@;
            let (_, e) = self.phy_sorted_leaves.pop().unwrap();
            proof {
                broadcast use vstd::seq_lib::group_to_multiset_ensures;

                assert(leaf_entries(lb) =~= leaf_entries(self.phy_sorted_leaves@).push(e));
                assert(old(self).held() =~= self.held().insert(e));
            }
            if self.phy_sorted_leaves.len() == 0 {
                self.phase = Phase::DirWalk;
            }
            return Step::Emit(e);
        }
        Step::Done
    }

    /// Read-ahead hints for the directories about to be taken. Walks the
    /// unordered queue, then the ordered queue from the cursor on, then the
    /// part before the cursor, recording each new path with its size until
    /// the byte budget or the cap is reached; extents of directories on an
    /// `ext3` or `ext4` mount are grouped by device, ordered and merged.
    pub fn prefetch(&mut self) -> (r: Vec<DeviceHints>)
        requires
            old(self).wf(),
        ensures
            final(self).wf(),
            final(self).phy_sorted == old(self).phy_sorted,
            final(self).phy_sorted_leaves == old(self).phy_sorted_leaves,
            final(self).unordered == old(self).unordered,
            final(self).cursor == old(self).cursor,
            final(self).dir_open == old(self).dir_open,
            final(self).inode_ordered == old(self).inode_ordered,
            final(self).phase == old(self).phase,
            final(self).order == old(self).order,
            final(self).batch_size == old(self).batch_size,
            final(self).mountpoints == old(self).mountpoints,
            final(self).prefetch_cap == old(self).prefetch_cap,
            prefetch_result(old(self), final(self).prefetched@),
            old(self).mountpoints@.len() == 0 || prefetch_total(old(self).prefetched@) > LIMIT / 2
                ==> r@.len() == 0,
            final(self).prefetched@.len() >= old(self).prefetched@.len(),
            final(self).prefetched@.subrange(0, old(self).prefetched@.len() as int)
                == old(self).prefetched@,
            final(self).prefetched@.len() <= old(self).prefetched@.len()
                || final(self).prefetched@.len() <= old(self).prefetch_cap + 2,
            forall|g: int| 0 <= g < r@.len() ==> hint_ok(#[trigger] r@[g], old(self).mountpoints@),
            forall|a: int, b: int|
                0 <= a < b < r@.len() ==> (#[trigger] r@[a]).spec@ != (#[trigger] r@[b]).spec@,
            exists|es: Seq<Entry>| #[trigger] hints_cover_new(old(self), final(self).prefetched@, r@, es),
    {
        if self.mountpoints.len() == 0 {
            assert(hints_cover_new(old(self), self.prefetched@, Seq::empty(), Seq::empty()));
            return Vec::new();
        }
        let consumed = total_of(&self.prefetched);
        let mut remaining: u64 = LIMIT.saturating_sub(consumed);
        if remaining < LIMIT / 2 {
            assert(hints_cover_new(old(self), self.prefetched@, Seq::empty(), Seq::empty()));
            return Vec::new();
        }
        let ghost start = self.prefetched@;
        let ghost mut es: Seq<Entry> = Seq::empty();
        let cap = self.prefetch_cap;
        let mut first: usize = 0;
        while first < self.phy_sorted.len() && self.phy_sorted[first].0 < self.cursor
            invariant
                first <= self.phy_sorted@.len(),
                forall|m: int| 0 <= m < first ==> (#[trigger] self.phy_sorted@[m]).0 < self.cursor,
            decreases self.phy_sorted@.len() - first,
        {
            first = first + 1;
        }
        assert(cursor_split(self.phy_sorted@, self.cursor, first as int)) by {
            assert forall|j: int| first <= j < self.phy_sorted@.len() implies (#[trigger] self.phy_sorted@[j]).0 >= self.cursor by {
                if j > first {
                    assert(self.phy_sorted@[first as int].0 < self.phy_sorted@[j].0);
                }
            }
        }
        let ghost c = cands(old(self), first as int);
        let ghost u = self.unordered@.len();
        let n = self.phy_sorted.len();
        assert(c.subrange(0, c.len() as int) =~= c);
        let mut groups: Vec<(Vec<u8>, Vec<FileExtent>)> = Vec::new();
        let mut stop = false;
        let mut i: usize = 0;
        while i < self.unordered.len() && !stop
            invariant
                self.wf(),
                remaining == budget_left(prefetch_total(self.prefetched@)),
                start.len() <= self.prefetched@.len(),
                self.prefetched@.subrange(0, start.len() as int) == start,
                self.prefetched@.len() <= start.len() || self.prefetched@.len() <= cap + 2,
                groups_ok(groups@, self.mountpoints@),
                c == cands(old(self), first as int),
                es.len() + start.len() == self.prefetched@.len(),
                forall|q: int|
                    0 <= q < es.len() ==> queued_entry(old(self), #[trigger] es[q]) && es[q].path@
                        == self.prefetched@[start.len() + q].0@ && grouped(groups@, self.mountpoints@, es[q]),
                from_entries(groups@, es),
                stop ==> walk(c, start, self.prefetched@, cap as nat),
                i <= u,
                u == self.unordered@.len(),
                !stop ==> forall|fin: Seq<(Vec<u8>, u64)>|
                    #[trigger] walk(c.subrange(i as int, c.len() as int), self.prefetched@, fin, cap as nat)
                        ==> walk(c, start, fin, cap as nat),
                self.phy_sorted == old(self).phy_sorted,
                self.phy_sorted_leaves == old(self).phy_sorted_leaves,
                self.unordered == old(self).unordered,
                self.cursor == old(self).cursor,
                self.dir_open == old(self).dir_open,
                self.inode_ordered == old(self).inode_ordered,
                self.phase == old(self).phase,
                self.order == old(self).order,
                self.batch_size == old(self).batch_size,
                self.mountpoints == old(self).mountpoints,
                self.prefetch_cap == cap,
            decreases self.unordered@.len() - i,
        {
            let ghost gprev = groups@;
            let ghost pb = self.prefetched@;
            stop = consider(
                &mut self.prefetched,
                &self.mountpoints,
                &mut groups,
                &self.unordered[i],
                &mut remaining,
                cap,
            );
            proof {
                let ghost gb = gprev;
                assert forall|q: int| 0 <= q < es.len() implies grouped(groups@, self.mountpoints@, #[trigger] es[q]) by {
                    lemma_grouped_grows(gb, groups@, self.mountpoints@, es[q]);
                }
                if self.prefetched@.len() > pb.len() {
                    let ee = self.unordered@[i as int];
                    assert(old(self).unordered@[i as int] == ee);
                    assert(old(self).unordered@.contains(ee));
                    let ghost eb = es;
                    es = es.push(ee);
                    assert forall|q: int| 0 <= q < es.len() implies queued_entry(old(self), #[trigger] es[q]) && es[q].path@
                        == self.prefetched@[start.len() + q].0@ && grouped(groups@, self.mountpoints@, es[q]) by {
                        if q < es.len() - 1 {
                            assert(self.prefetched@[start.len() + q] == pb[start.len() + q]);
                        }
                    }
                    assert forall|gi: int, y: FileExtent|
                        0 <= gi < groups@.len() && #[trigger] groups@[gi].1@.contains(y) implies exists|q: int|
                            0 <= q < es.len() && (#[trigger] es[q].extents@).contains(y) by {
                        if gi < gb.len() && gb[gi].1@.contains(y) {
                            let q = choose|q: int| 0 <= q < eb.len() && (#[trigger] eb[q].extents@).contains(y);
                            assert(es[q] == eb[q]);
                        } else {
                            assert(es[es.len() - 1].extents@.contains(y));
                        }
                    }
                } else {
                    assert forall|q: int| 0 <= q < es.len() implies es[q].path@
                        == self.prefetched@[start.len() + q].0@ by {
                        assert(self.prefetched@ =~= pb);
                    }
                    assert forall|gi: int, y: FileExtent|
                        0 <= gi < groups@.len() && #[trigger] groups@[gi].1@.contains(y) implies exists|q: int|
                            0 <= q < es.len() && (#[trigger] es[q].extents@).contains(y) by {
                        assert(gi < gb.len() && gb[gi].1@.contains(y));
                    }
                }
            }
            assert(self.prefetched@.subrange(0, start.len() as int) =~= pb.subrange(0, start.len() as int));
            proof {
                assert(c[i as int] == self.unordered@[i as int]);
                if stop {
                    assert(walk(c.subrange(i as int, c.len() as int), pb, pb, cap as nat));
                } else {
                    lemma_advance(c, i as int, i + 1, start, pb, self.prefetched@, cap as nat);
                }
            }
            i = i + 1;
        }
        let mut k: usize = 0;
        while k < n && !stop
            invariant
                self.wf(),
                remaining == budget_left(prefetch_total(self.prefetched@)),
                start.len() <= self.prefetched@.len(),
                self.prefetched@.subrange(0, start.len() as int) == start,
                self.prefetched@.len() <= start.len() || self.prefetched@.len() <= cap + 2,
                groups_ok(groups@, self.mountpoints@),
                c == cands(old(self), first as int),
                es.len() + start.len() == self.prefetched@.len(),
                forall|q: int|
                    0 <= q < es.len() ==> queued_entry(old(self), #[trigger] es[q]) && es[q].path@
                        == self.prefetched@[start.len() + q].0@ && grouped(groups@, self.mountpoints@, es[q]),
                from_entries(groups@, es),
                stop ==> walk(c, start, self.prefetched@, cap as nat),
                n == self.phy_sorted@.len(),
                first <= n,
                k <= n,
                u == self.unordered@.len(),
                c.len() == u + n,
                !stop ==> forall|fin: Seq<(Vec<u8>, u64)>|
                    #[trigger] walk(c.subrange(u + k, c.len() as int), self.prefetched@, fin, cap as nat)
                        ==> walk(c, start, fin, cap as nat),
                self.phy_sorted == old(self).phy_sorted,
                self.phy_sorted_leaves == old(self).phy_sorted_leaves,
                self.unordered == old(self).unordered,
                self.cursor == old(self).cursor,
                self.dir_open == old(self).dir_open,
                self.inode_ordered == old(self).inode_ordered,
                self.phase == old(self).phase,
                self.order == old(self).order,
                self.batch_size == old(self).batch_size,
                self.mountpoints == old(self).mountpoints,
                self.prefetch_cap == cap,
            decreases n - k,
        {
            let idx = if k < n - first {
                first + k
            } else {
                k - (n - first)
            };
            let ghost gprev = groups@;
            let ghost pb = self.prefetched@;
            stop = consider(
                &mut self.prefetched,
                &self.mountpoints,
                &mut groups,
                &self.phy_sorted[idx].1,
                &mut remaining,
                cap,
            );
            proof {
                let ghost gb = gprev;
                assert forall|q: int| 0 <= q < es.len() implies grouped(groups@, self.mountpoints@, #[trigger] es[q]) by {
                    lemma_grouped_grows(gb, groups@, self.mountpoints@, es[q]);
                }
                if self.prefetched@.len() > pb.len() {
                    let ee = self.phy_sorted@[idx as int].1;
                    assert(old(self).phy_sorted@[idx as int].1 == ee);
                    let ghost eb = es;
                    es = es.push(ee);
                    assert forall|q: int| 0 <= q < es.len() implies queued_entry(old(self), #[trigger] es[q]) && es[q].path@
                        == self.prefetched@[start.len() + q].0@ && grouped(groups@, self.mountpoints@, es[q]) by {
                        if q < es.len() - 1 {
                            assert(self.prefetched@[start.len() + q] == pb[start.len() + q]);
                        }
                    }
                    assert forall|gi: int, y: FileExtent|
                        0 <= gi < groups@.len() && #[trigger] groups@[gi].1@.contains(y) implies exists|q: int|
                            0 <= q < es.len() && (#[trigger] es[q].extents@).contains(y) by {
                        if gi < gb.len() && gb[gi].1@.contains(y) {
                            let q = choose|q: int| 0 <= q < eb.len() && (#[trigger] eb[q].extents@).contains(y);
                            assert(es[q] == eb[q]);
                        } else {
                            assert(es[es.len() - 1].extents@.contains(y));
                        }
                    }
                } else {
                    assert forall|q: int| 0 <= q < es.len() implies es[q].path@
                        == self.prefetched@[start.len() + q].0@ by {
                        assert(self.prefetched@ =~= pb);
                    }
                    assert forall|gi: int, y: FileExtent|
                        0 <= gi < groups@.len() && #[trigger] groups@[gi].1@.contains(y) implies exists|q: int|
                            0 <= q < es.len() && (#[trigger] es[q].extents@).contains(y) by {
                        assert(gi < gb.len() && gb[gi].1@.contains(y));
                    }
                }
            }
            assert(self.prefetched@.subrange(0, start.len() as int) =~= pb.subrange(0, start.len() as int));
            proof {
                assert(c[u + k] == self.phy_sorted@[idx as int].1);
                if stop {
                    assert(walk(c.subrange(u + k, c.len() as int), pb, pb, cap as nat));
                } else {
                    lemma_advance(c, u + k, u + (k + 1), start, pb, self.prefetched@, cap as nat);
                }
            }
            k = k + 1;
        }
        proof {
            if !stop {
                assert(walk(c.subrange(c.len() as int, c.len() as int), self.prefetched@, self.prefetched@, cap as nat));
            }
            assert(walk(c, start, self.prefetched@, cap as nat));
        }
        let mut hints: Vec<DeviceHints> = Vec::new();
        let mut g: usize = 0;
        while g < groups.len()
            invariant
                g <= groups@.len(),
                groups_ok(groups@, self.mountpoints@),
                self.mountpoints == old(self).mountpoints,
                hints@.len() == g,
                forall|h: int| 0 <= h < g ==> hint_ok(#[trigger] hints@[h], self.mountpoints@),
                forall|h: int| 0 <= h < g ==> (#[trigger] hints@[h]).spec@ == groups@[h].0@,
                forall|h: int, y: FileExtent|
                    0 <= h < g && groups@[h].1@.contains(y) ==> #[trigger] is_covered(hints@[h].ranges@, y),
                from_entries(groups@, es),
                forall|h: int, m: int|
                    0 <= h < g && 0 <= m < hints@[h].ranges@.len() ==> range_in_entries(#[trigger] hints@[h].ranges@[m], es),
            decreases groups@.len() - g,
        {
            let ordered = sort_extents(&groups[g].1);
            let ranges = coalesce(&ordered);
            let spec = copy_bytes(&groups[g].0);
            proof {
                assert forall|y: FileExtent| groups@[g as int].1@.contains(y) implies is_covered(ranges@, y) by {
                    broadcast use vstd::seq_lib::group_to_multiset_ensures;

                    assert(groups@[g as int].1@.to_multiset().count(y) > 0);
                    assert(ordered@.contains(y));
                    let w = choose|w: int| 0 <= w < ordered@.len() && ordered@[w] == y;
                    assert(is_covered(ranges@, ordered@[w]));
                }
            }
            proof {
                assert forall|y: FileExtent| #[trigger] groups@[g as int].1@.contains(y) implies exists|q: int|
                    0 <= q < es.len() && (#[trigger] es[q].extents@).contains(y) by {}
                lemma_ranges_from_entries(ranges@, ordered@, groups@[g as int].1@, es);
            }
            let ghost hb = hints@;
            hints.push(DeviceHints { spec, ranges });
            assert forall|h: int, m: int|
                0 <= h < g + 1 && 0 <= m < hints@[h].ranges@.len() implies range_in_entries(#[trigger] hints@[h].ranges@[m], es) by {
                if h < g {
                    assert(hints@[h] == hb[h]);
                }
            }
            assert forall|h: int, y: FileExtent|
                0 <= h < g + 1 && groups@[h].1@.contains(y) implies #[trigger] is_covered(hints@[h].ranges@, y) by {
                if h < g {
                    assert(hints@[h] == hb[h]);
                }
            }
            g = g + 1;
        }
        proof {
            assert forall|q: int| 0 <= q < es.len() implies hinted(hints@, old(self).mountpoints@, #[trigger] es[q]) by {
                assert forall|m: int|
                    #[trigger] is_mount_of(old(self).mountpoints@, es[q].path@, m) && is_ext_family(old(self).mountpoints@[m].vfstype@) implies exists|h: int|
                        0 <= h < hints@.len() && (#[trigger] hints@[h]).spec@ == old(self).mountpoints@[m].spec@ && forall|x: int|
                            0 <= x < es[q].extents@.len() ==> is_covered(hints@[h].ranges@, #[trigger] es[q].extents@[x]) by {
                    assert(grouped(groups@, self.mountpoints@, es[q]));
                    let gi = choose|gi: int|
                        0 <= gi < groups@.len() && (#[trigger] groups@[gi]).0@ == self.mountpoints@[m].spec@ && forall|x: int|
                            0 <= x < es[q].extents@.len() ==> groups@[gi].1@.contains(#[trigger] es[q].extents@[x]);
                    assert(hints@[gi].spec@ == groups@[gi].0@);
                    assert forall|x: int| 0 <= x < es[q].extents@.len() implies is_covered(hints@[gi].ranges@, #[trigger] es[q].extents@[x]) by {
                        assert(groups@[gi].1@.contains(es[q].extents@[x]));
                    }
                }
            }
            assert(hints_cover_new(old(self), self.prefetched@, hints@, es));
        }
        assert forall|a: int, b: int| 0 <= a < b < hints@.len() implies (#[trigger] hints@[a]).spec@ != (#[trigger] hints@[b]).spec@ by {
            assert(hints@[a].spec@ == groups@[a].0@);
            assert(hints@[b].spec@ == groups@[b].0@);
        }
        hints
    }

    /// Drops from the mount snapshot every mount whose device could not be
    /// opened, keeping the order of the rest.
    pub fn prune_devices(&mut self, failed: &Vec<Vec<u8>>)
        ensures
            final(self).phy_sorted == old(self).phy_sorted,
            final(self).phy_sorted_leaves == old(self).phy_sorted_leaves,
            final(self).unordered == old(self).unordered,
            final(self).cursor == old(self).cursor,
            final(self).dir_open == old(self).dir_open,
            final(self).inode_ordered == old(self).inode_ordered,
            final(self).phase == old(self).phase,
            final(self).order == old(self).order,
            final(self).batch_size == old(self).batch_size,
            final(self).prefetched == old(self).prefetched,
            final(self).prefetch_cap == old(self).prefetch_cap,
            final(self).mountpoints@ == kept_mounts(old(self).mountpoints@, failed@),
    {
        let mut kept: Vec<Mount> = Vec::new();
        let mut all: Vec<Mount> = Vec::new();
        std::mem::swap(&mut all, &mut self.mountpoints);
        let ghost orig = all@;
        let total = all.len();
        let mut i: usize = 0;
        assert(kept@ =~= kept_mounts(orig.subrange(0, 0), failed@)) by {
            reveal(Seq::filter);
            assert(orig.subrange(0, 0).len() == 0);
        }
        while all.len() > 0
            invariant
                orig.len() == total,
                all@ == orig.subrange(i as int, orig.len() as int),
                i <= orig.len(),
                kept@ == kept_mounts(orig.subrange(0, i as int), failed@),
            decreases all@.len(),
        {
            let m = all.remove(0);
            proof {
                lemma_kept_push(orig.subrange(0, i as int), m, failed@);
                assert(orig.subrange(0, i as int).push(m) =~= orig.subrange(0, i as int + 1));
            }
            if !listed(failed, m.spec.as_slice()) {
                kept.push(m);
            }
            i = i + 1;
            assert(all@ =~= orig.subrange(i as int, orig.len() as int));
        }
        assert(orig.subrange(0, i as int) =~= orig);
        self.mountpoints = kept;
    }

    /// Takes a mount-table snapshot for read-ahead; an empty one turns
    /// read-ahead off.
    pub fn prefetch_dirs(&mut self, mounts: Vec<Mount>)
        ensures
            *final(self) == (ToScan { mountpoints: mounts, ..*old(self) }),
    {
        self.mountpoints = mounts;
    }

    /// Accounts for a directory being taken: a hit on an outstanding hint
    /// widens the prefetch window, a miss collapses it and forgets all hints.
    pub fn remove_prefetch(&mut self, path: &[u8])
        requires
            old(self).prefetch_cap <= MAX_CAP,
            budget_ok(old(self).prefetched@),
            paths_distinct(old(self).prefetched@),
        ensures
            final(self).prefetch_cap <= MAX_CAP,
            budget_ok(final(self).prefetched@),
            paths_distinct(final(self).prefetched@),
            holds_path(old(self).prefetched@, path@) ==> exists|i: int|
                0 <= i < old(self).prefetched@.len() && old(self).prefetched@[i].0@ == path@
                    && final(self).prefetched@ == old(self).prefetched@.remove(i)
                    && final(self).prefetch_cap == grown_cap(old(self).prefetch_cap as nat),
            !holds_path(old(self).prefetched@, path@) ==> final(self).prefetched@.len() == 0
                && final(self).prefetch_cap == MISS_CAP,
            final(self).phy_sorted == old(self).phy_sorted,
            final(self).phy_sorted_leaves == old(self).phy_sorted_leaves,
            final(self).unordered == old(self).unordered,
            final(self).cursor == old(self).cursor,
            final(self).dir_open == old(self).dir_open,
            final(self).inode_ordered == old(self).inode_ordered,
            final(self).phase == old(self).phase,
            final(self).order == old(self).order,
            final(self).batch_size == old(self).batch_size,
            final(self).mountpoints == old(self).mountpoints,
    {
        match find_path(&self.prefetched, path) {
            Some(i) => {
                proof {
                    lemma_budget_remove(self.prefetched@, i as int);
                }
                let ghost pr = self.prefetched@;
                self.prefetched.remove(i);
                assert forall|a: int, b: int| 0 <= a < b < self.prefetched@.len() implies (#[trigger] self.prefetched@[a]).0@ != (#[trigger] self.prefetched@[b]).0@ by {
                    let a1 = if a < i { a } else { a + 1 };
                    let b1 = if b < i { b } else { b + 1 };
                    assert(self.prefetched@[a] == pr[a1]);
                    assert(self.prefetched@[b] == pr[b1]);
                }
                if self.prefetch_cap <= (MAX_CAP - 1) / 2 {
                    self.prefetch_cap = self.prefetch_cap * 2 + 1;
                } else {
                    self.prefetch_cap = MAX_CAP;
                }
                return;
            },
            None => {},
        }
        self.prefetch_cap = MISS_CAP;
        self.prefetched.clear();
        assert(prefetch_total(self.prefetched@) == 0);
    }
}

/// Within one inode pass, the entry handed out after another never has a
/// smaller inode number: `b` is the state once `a`'s next entry is gone.
pub proof fn inode_pass_non_decreasing(a: ToScan, b: ToScan)
    requires
        a.wf(),
        b.wf(),
        a.phase == Phase::InodePass,
        b.phase == Phase::InodePass,
        b.inode_ordered@ == a.inode_ordered@.drop_last(),
    ensures
        a.inode_ordered@.last().ino <= b.inode_ordered@.last().ino,
{
    let n = a.inode_ordered@.len() as int;
    assert(b.inode_ordered@.last() == a.inode_ordered@[n - 2]);
}

/// Within one content pass, the entry handed out after another never has
/// a smaller content offset: `b` is the state once `a`'s next entry is gone.
pub proof fn content_pass_non_decreasing(a: ToScan, b: ToScan)
    requires
        a.wf(),
        b.wf(),
        a.phase == Phase::ContentPass,
        b.phase == Phase::ContentPass,
        b.phy_sorted_leaves@ == a.phy_sorted_leaves@.drop_last(),
    ensures
        a.phy_sorted_leaves@.last().0 <= b.phy_sorted_leaves@.last().0,
{
    let n = a.phy_sorted_leaves@.len() as int;
    assert(b.phy_sorted_leaves@.last() == a.phy_sorted_leaves@[n - 2]);
}

/// Nothing buffered is lost: `step` answers `Done` only on an exhausted
/// walk, and an exhausted walk holds no entry, so every entry that `child`
/// buffered has been handed out by `Emit` before the walk ends.
pub proof fn done_holds_nothing(s: ToScan)
    requires
        s.exhausted(),
    ensures
        s.held() == Multiset::<Entry>::empty(),
{
    broadcast use vstd::seq_lib::group_to_multiset_ensures;

    assert(leaf_entries(s.phy_sorted_leaves@) =~= Seq::<Entry>::empty());
    assert(s.inode_ordered@.to_multiset() =~= Multiset::empty());
    assert(leaf_entries(s.phy_sorted_leaves@).to_multiset() =~= Multiset::empty());
    assert(s.held() =~= Multiset::empty());
}

} // verus!
