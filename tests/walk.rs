use platter_walk::{DeviceHints, Entry, FileExtent, FileKind, Mount, Order, Step, ToScan};

struct Node {
    path: &'static str,
    kind: FileKind,
    ino: u64,
    offset: Option<u64>,
}

fn file(path: &'static str, ino: u64, offset: u64) -> Node {
    Node { path, kind: FileKind::Regular, ino, offset: Some(offset) }
}

fn dir(path: &'static str, ino: u64, offset: Option<u64>) -> Node {
    Node { path, kind: FileKind::Directory, ino, offset }
}

fn parent(p: &str) -> &str {
    match p.rfind('/') {
        Some(0) => "/",
        Some(i) => &p[..i],
        None => "",
    }
}

fn extents_of(n: &Node) -> Vec<FileExtent> {
    match n.offset {
        Some(o) => vec![FileExtent { physical: o, length: 4096 }],
        None => vec![],
    }
}

struct Run {
    out: Vec<Entry>,
    opened: Vec<String>,
    errors: usize,
}

fn drive(scan: &mut ToScan, tree: &[Node], pass: &dyn Fn(&str, FileKind) -> bool) -> Run {
    let mut run = Run { out: vec![], opened: vec![], errors: 0 };
    let mut kids: Vec<&Node> = vec![];
    let mut next_kid = 0usize;
    for _ in 0..10000 {
        match scan.step() {
            Step::Open(e, _hints) => {
                let p = String::from_utf8(e.path().to_vec()).unwrap();
                let known = p == "/" || tree.iter().any(|n| n.path == p && n.kind == FileKind::Directory);
                run.opened.push(p.clone());
                if known {
                    kids = tree.iter().filter(|n| parent(n.path) == p).collect();
                    next_kid = 0;
                    scan.dir_opened();
                } else {
                    run.errors += 1;
                }
            }
            Step::Read => {
                if next_kid < kids.len() {
                    let n = kids[next_kid];
                    next_kid += 1;
                    let ext = if n.kind == FileKind::Directory { extents_of(n) } else { vec![] };
                    let r = scan.child(n.path.as_bytes().to_vec(), n.kind, n.ino, ext, pass(n.path, n.kind));
                    if let Some(e) = r {
                        run.out.push(e);
                    }
                } else {
                    scan.dir_done();
                }
            }
            Step::Locate(paths) => {
                let found: Vec<Vec<FileExtent>> = paths
                    .iter()
                    .map(|p| {
                        tree.iter()
                            .find(|n| n.path.as_bytes() == p.as_slice())
                            .map(extents_of)
                            .unwrap_or_default()
                    })
                    .collect();
                scan.place_batch(found);
            }
            Step::Emit(e) => run.out.push(e),
            Step::Done => return run,
        }
    }
    panic!("walk did not end");
}

fn all(_: &str, _: FileKind) -> bool {
    true
}

fn inodes(r: &Run) -> Vec<u64> {
    r.out.iter().map(|e| e.ino()).collect()
}

fn paths(r: &Run) -> Vec<String> {
    r.out.iter().map(|e| String::from_utf8(e.path().to_vec()).unwrap()).collect()
}

fn root_scan(order: Order, batch: usize) -> ToScan {
    let mut s = ToScan::new();
    s.set_order(order);
    s.set_batchsize(batch);
    s.add_root(b"/".to_vec(), 2, FileKind::Directory);
    s
}

#[test]
fn inode_order_sorts_batch() {
    let tree = [file("/a", 100, 1), file("/b", 50, 2), file("/c", 75, 3)];
    let mut s = root_scan(Order::Inode, 3);
    let r = drive(&mut s, &tree, &all);
    assert_eq!(inodes(&r), vec![50, 75, 100]);
}

#[test]
fn content_order_sorts_batch() {
    let tree = [file("/a", 100, 9000), file("/b", 50, 3000), file("/c", 75, 6000)];
    let mut s = root_scan(Order::Content, 3);
    let r = drive(&mut s, &tree, &all);
    assert_eq!(paths(&r), vec!["/b", "/c", "/a"]);
}

#[test]
fn directories_visited_by_offset() {
    let tree = [
        dir("/A", 10, Some(1000)),
        dir("/B", 11, Some(500)),
        file("/A/f", 20, 1),
        file("/B/g", 21, 2),
    ];
    let mut s = root_scan(Order::Dentries, 1024);
    let r = drive(&mut s, &tree, &all);
    assert_eq!(r.opened, vec!["/", "/B", "/A"]);
    assert_eq!(paths(&r), vec!["/A", "/B", "/B/g", "/A/f"]);
}

#[test]
fn directory_without_extents_still_walked() {
    let tree = [dir("/d", 10, None), file("/d/x", 20, 1), file("/d/y", 21, 2)];
    let mut s = root_scan(Order::Dentries, 1024);
    let r = drive(&mut s, &tree, &all);
    assert_eq!(r.errors, 0);
    assert_eq!(paths(&r), vec!["/d", "/d/x", "/d/y"]);
}

#[test]
fn fresh_scan_is_exhausted() {
    let mut s = ToScan::new();
    assert!(matches!(s.step(), Step::Done));
    assert!(matches!(s.step(), Step::Done));
}

#[test]
fn missing_root_reports_error_and_ends() {
    let mut s = ToScan::new();
    s.add_root(b"/nowhere".to_vec(), 0, FileKind::Directory);
    let r = drive(&mut s, &[], &all);
    assert_eq!(r.errors, 1);
    assert!(r.out.is_empty());
    assert!(matches!(s.step(), Step::Done));
}

#[test]
fn content_batches_of_two() {
    let tree = [
        file("/a", 1, 100),
        file("/b", 2, 50),
        file("/c", 3, 300),
        file("/d", 4, 200),
        file("/e", 5, 400),
    ];
    let mut s = root_scan(Order::Content, 2);
    let r = drive(&mut s, &tree, &all);
    assert_eq!(paths(&r), vec!["/b", "/a", "/d", "/c", "/e"]);
}

#[test]
fn filtered_directory_is_still_descended() {
    let tree = [dir("/skip", 10, Some(7)), file("/skip/k", 20, 1)];
    let mut s = root_scan(Order::Dentries, 1024);
    let r = drive(&mut s, &tree, &|p: &str, _k: FileKind| p != "/skip");
    assert_eq!(r.opened, vec!["/", "/skip"]);
    assert_eq!(paths(&r), vec!["/skip/k"]);
}

#[test]
fn dentries_walk_is_repeatable() {
    let tree = [
        dir("/A", 10, Some(1000)),
        dir("/B", 11, Some(500)),
        file("/A/f", 20, 1),
        file("/B/g", 21, 2),
        file("/h", 22, 3),
    ];
    let mut s1 = root_scan(Order::Dentries, 1024);
    let mut s2 = root_scan(Order::Dentries, 1024);
    assert_eq!(paths(&drive(&mut s1, &tree, &all)), paths(&drive(&mut s2, &tree, &all)));
}

#[test]
fn inode_batches_are_each_sorted() {
    let tree = [
        file("/a", 9, 1),
        file("/b", 3, 1),
        file("/c", 7, 1),
        file("/d", 1, 1),
        file("/e", 5, 1),
    ];
    let mut s = root_scan(Order::Inode, 2);
    let r = drive(&mut s, &tree, &all);
    assert_eq!(inodes(&r), vec![3, 9, 1, 7, 5]);
}

fn opened_path(s: &mut ToScan) -> Vec<u8> {
    match s.step() {
        Step::Open(e, _) => e.path().to_vec(),
        _ => panic!("expected a directory to open"),
    }
}

#[test]
fn equal_offsets_displace_to_unordered() {
    let mut s = ToScan::new();
    let a = Entry::new(b"/a".to_vec(), FileKind::Directory, 1, vec![]);
    let b = Entry::new(b"/b".to_vec(), FileKind::Directory, 2, vec![]);
    s.add(a, Some(10));
    s.add(b, Some(10));
    assert_eq!(s.phy_sorted.len(), 1);
    assert_eq!(s.phy_sorted[0].1.path(), b"/b");
    assert_eq!(s.unordered.len(), 1);
    assert_eq!(s.unordered[0].path(), b"/a");
    assert_eq!(opened_path(&mut s), b"/a".to_vec());
    assert_eq!(opened_path(&mut s), b"/b".to_vec());
    assert_eq!(s.cursor, 10);
    assert!(matches!(s.step(), Step::Done));
}

#[test]
fn cursor_wraps_to_lower_offsets() {
    let mut s = ToScan::new();
    s.add(Entry::new(b"/hi".to_vec(), FileKind::Directory, 1, vec![]), Some(900));
    assert_eq!(opened_path(&mut s), b"/hi".to_vec());
    assert_eq!(s.cursor, 900);
    s.add(Entry::new(b"/lo".to_vec(), FileKind::Directory, 2, vec![]), Some(100));
    s.add(Entry::new(b"/top".to_vec(), FileKind::Directory, 3, vec![]), Some(950));
    assert_eq!(opened_path(&mut s), b"/top".to_vec());
    assert_eq!(opened_path(&mut s), b"/lo".to_vec());
    assert_eq!(s.cursor, 100);
}

#[test]
fn entries_equal_by_path() {
    let a = Entry::new(b"/same".to_vec(), FileKind::Directory, 1, vec![]);
    let b = Entry::new(b"/same".to_vec(), FileKind::Regular, 2, vec![FileExtent { physical: 1, length: 1 }]);
    let c = Entry::new(b"/other".to_vec(), FileKind::Directory, 1, vec![]);
    assert!(a == b);
    assert!(a != c);
}

#[test]
fn taking_a_directory_updates_hint_record() {
    let mut s = ToScan::new();
    s.prefetch_dirs(vec![ext_mount("/", "/dev/sda")]);
    s.prefetch_cap = 10;
    s.add(Entry::new(b"/p".to_vec(), FileKind::Directory, 1, vec![FileExtent { physical: 0, length: 4 }]), None);
    s.add(Entry::new(b"/q".to_vec(), FileKind::Directory, 2, vec![FileExtent { physical: 8, length: 4 }]), None);
    match s.step() {
        Step::Open(e, hints) => {
            assert_eq!(e.path(), b"/p");
            assert_eq!(hints.len(), 1);
            assert_eq!(hints[0].ranges, vec![(0, 4), (8, 4)]);
        }
        _ => panic!("expected a directory to open"),
    }
    assert_eq!(s.prefetch_cap, 21);
    assert_eq!(s.prefetched, vec![(b"/q".to_vec(), 4)]);
}

#[test]
fn taking_an_unhinted_directory_collapses_cap() {
    let mut s = ToScan::new();
    s.add(Entry::new(b"/p".to_vec(), FileKind::Directory, 1, vec![]), None);
    let _ = opened_path(&mut s);
    assert_eq!(s.prefetch_cap, 2);
    assert!(s.prefetched.is_empty());
}

#[test]
fn extent_sum_adds_lengths() {
    let e = Entry::new(
        b"/x".to_vec(),
        FileKind::Regular,
        3,
        vec![FileExtent { physical: 10, length: 5 }, FileExtent { physical: 40, length: 7 }],
    );
    assert_eq!(e.extent_sum(), 12);
    assert_eq!(e.first_offset(), 10);
    let full = Entry::new(
        b"/y".to_vec(),
        FileKind::Regular,
        4,
        vec![FileExtent { physical: 0, length: u64::MAX }, FileExtent { physical: 1, length: 1 }],
    );
    assert_eq!(full.extent_sum(), u64::MAX);
}

#[test]
fn cap_grows_on_hit_and_collapses_on_miss() {
    let mut s = ToScan::new();
    s.prefetched.push((b"/a".to_vec(), 10));
    s.prefetched.push((b"/b".to_vec(), 10));
    s.remove_prefetch(b"/a");
    assert_eq!(s.prefetch_cap, 1);
    assert_eq!(s.prefetched.len(), 1);
    s.remove_prefetch(b"/b");
    assert_eq!(s.prefetch_cap, 3);
    s.prefetched.push((b"/c".to_vec(), 10));
    s.remove_prefetch(b"/zzz");
    assert_eq!(s.prefetch_cap, 2);
    assert!(s.prefetched.is_empty());
    s.prefetch_cap = 2000;
    s.prefetched.push((b"/d".to_vec(), 1));
    s.remove_prefetch(b"/d");
    assert_eq!(s.prefetch_cap, 2048);
}

fn ext_mount(file: &str, spec: &str) -> Mount {
    Mount { file: file.as_bytes().to_vec(), spec: spec.as_bytes().to_vec(), vfstype: b"ext4".to_vec() }
}

#[test]
fn prefetch_groups_and_merges_extents() {
    let mut s = ToScan::new();
    s.prefetch_dirs(vec![
        Mount { file: b"/".to_vec(), spec: b"/dev/root".to_vec(), vfstype: b"btrfs".to_vec() },
        ext_mount("/data", "/dev/sdb1"),
    ]);
    s.add(
        Entry::new(
            b"/data/x".to_vec(),
            FileKind::Directory,
            5,
            vec![FileExtent { physical: 100, length: 50 }, FileExtent { physical: 20, length: 10 }],
        ),
        None,
    );
    s.add(
        Entry::new(
            b"/data/y".to_vec(),
            FileKind::Directory,
            6,
            vec![FileExtent { physical: 140, length: 60 }],
        ),
        Some(140),
    );
    s.add(
        Entry::new(b"/other".to_vec(), FileKind::Directory, 7, vec![FileExtent { physical: 1, length: 1 }]),
        Some(1),
    );
    s.prefetch_cap = 10;
    let hints: Vec<DeviceHints> = s.prefetch();
    assert_eq!(hints.len(), 1);
    assert_eq!(hints[0].spec, b"/dev/sdb1".to_vec());
    assert_eq!(hints[0].ranges, vec![(20, 10), (100, 100)]);
    assert_eq!(s.prefetched.len(), 3);
    assert_eq!(s.prefetched[0], (b"/data/x".to_vec(), 60));
    assert_eq!(s.prefetched[1], (b"/other".to_vec(), 1));
    assert_eq!(s.prefetched[2], (b"/data/y".to_vec(), 60));
}

#[test]
fn prefetch_skips_when_budget_half_spent() {
    let mut s = ToScan::new();
    s.prefetch_dirs(vec![ext_mount("/", "/dev/sda")]);
    s.prefetched.push((b"/big".to_vec(), 4 * 1024 * 1024 + 1));
    s.add(Entry::new(b"/q".to_vec(), FileKind::Directory, 1, vec![FileExtent { physical: 0, length: 8 }]), None);
    assert!(s.prefetch().is_empty());
    assert_eq!(s.prefetched.len(), 1);
}

#[test]
fn prefetch_off_without_mounts() {
    let mut s = ToScan::new();
    s.add(Entry::new(b"/q".to_vec(), FileKind::Directory, 1, vec![FileExtent { physical: 0, length: 8 }]), None);
    assert!(s.prefetch().is_empty());
    assert!(s.prefetched.is_empty());
}

#[test]
fn prune_drops_failed_devices() {
    let mut s = ToScan::new();
    s.prefetch_dirs(vec![ext_mount("/", "/dev/a"), ext_mount("/m", "/dev/b"), ext_mount("/n", "/dev/c")]);
    s.prune_devices(&vec![b"/dev/a".to_vec()]);
    assert_eq!(s.mountpoints.len(), 2);
    assert_eq!(s.mountpoints[0].spec, b"/dev/b".to_vec());
    assert_eq!(s.mountpoints[1].spec, b"/dev/c".to_vec());
}

#[test]
fn most_specific_mount_picks_device() {
    let mut s = ToScan::new();
    s.prefetch_dirs(vec![ext_mount("/", "/dev/a"), ext_mount("/data", "/dev/b")]);
    s.prefetch_cap = 10;
    s.add(Entry::new(b"/data/x".to_vec(), FileKind::Directory, 1, vec![FileExtent { physical: 5, length: 5 }]), None);
    s.add(Entry::new(b"/database".to_vec(), FileKind::Directory, 2, vec![FileExtent { physical: 50, length: 5 }]), None);
    s.add(Entry::new(b"/data/y".to_vec(), FileKind::Directory, 3, vec![FileExtent { physical: 10, length: 5 }]), None);
    let hints = s.prefetch();
    assert_eq!(hints.len(), 2);
    assert_eq!(hints[0].spec, b"/dev/b".to_vec());
    assert_eq!(hints[0].ranges, vec![(5, 10)]);
    assert_eq!(hints[1].spec, b"/dev/a".to_vec());
    assert_eq!(hints[1].ranges, vec![(50, 5)]);
}

#[test]
fn contained_extent_does_not_shrink_range() {
    let mut s = ToScan::new();
    s.prefetch_dirs(vec![ext_mount("/", "/dev/a")]);
    s.add(
        Entry::new(
            b"/z".to_vec(),
            FileKind::Directory,
            1,
            vec![FileExtent { physical: 0, length: 100 }, FileExtent { physical: 10, length: 5 }],
        ),
        None,
    );
    let hints = s.prefetch();
    assert_eq!(hints[0].ranges, vec![(0, 100)]);
}

#[test]
fn prefetch_stops_at_cap() {
    let mut s = ToScan::new();
    s.prefetch_dirs(vec![ext_mount("/", "/dev/sda")]);
    for (i, p) in ["/p", "/q", "/r", "/s"].iter().enumerate() {
        s.add(
            Entry::new(p.as_bytes().to_vec(), FileKind::Directory, i as u64, vec![FileExtent { physical: 10 * i as u64, length: 4 }]),
            None,
        );
    }
    let hints = s.prefetch();
    assert_eq!(s.prefetched.len(), 2);
    assert_eq!(hints.len(), 1);
    assert_eq!(hints[0].ranges, vec![(0, 4), (10, 4)]);
}
