use reflicate::{
    already_linked, indexfile_entries, make_file_hashes, make_link, make_links, mainloop,
    saved_bytes, scandir, set_digests, size_to_string, subindex_linkable, temp_filename, temp_name,
    with_trailing_slash, Args, CacheEntry, EntryMeta, FileDigests, FileHasher, IdxFileRecord,
    IdxRecord, Index, LinkKind, LinkProbe,
};

fn file(path: &str, dev: u64, size: u64, mtime: i64) -> EntryMeta {
    EntryMeta {
        path: path.as_bytes().to_vec(),
        is_symlink: false,
        is_dir: false,
        is_file: true,
        dev,
        size,
        mtime,
    }
}

fn dir(path: &str, dev: u64) -> EntryMeta {
    EntryMeta {
        path: path.as_bytes().to_vec(),
        is_symlink: false,
        is_dir: true,
        is_file: false,
        dev,
        size: 4096,
        mtime: 0,
    }
}

fn args(dryrun: bool, hardlinks: bool) -> Args {
    Args {
        dryrun,
        hardlinks,
        indexfile: None,
        paranoid: false,
        quiet: true,
        directories: vec!["root".to_string()],
    }
}

fn digest_of(data: &[u8], paranoid: bool) -> FileDigests {
    let mut h = FileHasher::new(paranoid);
    h.update(data);
    h.finish()
}

fn probe(ino: u64, extent: u64) -> LinkProbe {
    LinkProbe { dev: 1, ino, first_extent: Some(extent) }
}

/// Scans a flat tree of files on device 1, hashes what needs hashing from
/// `contents`, and returns the index.
fn hashed_tree(files: &[(&str, &[u8])]) -> Index {
    let mut index = Index::new();
    let entries: Vec<EntryMeta> =
        files.iter().map(|(p, c)| file(p, 1, c.len() as u64, 100)).collect();
    let sub = scandir(&mut index, 1, &entries);
    assert!(sub.is_empty());
    index.retain_multi();
    let pending = make_file_hashes(&mut index, &Vec::new(), false);
    for pos in pending {
        let path = index.record(pos.0, pos.1).path.clone();
        let content = files.iter().find(|(p, _)| p.as_bytes() == &path[..]).unwrap().1;
        let d = digest_of(content, false);
        set_digests(&mut index, pos, &d);
    }
    index
}

fn tree_one() -> Index {
    hashed_tree(&[("a", b"hello"), ("b", b"hello"), ("c", b"world")])
}

fn paths(group: &Vec<IdxRecord>) -> Vec<String> {
    group.iter().map(|r| String::from_utf8(r.path.clone()).unwrap()).collect()
}

#[test]
fn basic_reflink_links_a_and_b() {
    let mut index = tree_one();
    let groups = mainloop(&mut index);
    assert_eq!(groups.len(), 1);
    let mut names = paths(&groups[0]);
    names.sort();
    assert_eq!(names, vec!["a".to_string(), "b".to_string()]);
    let probes = vec![probe(10, 4096), probe(11, 8192)];
    let plan = make_links(&groups[0], &probes);
    assert_eq!(plan.dests, vec![1]);
    assert_eq!(plan.saved, 5);
    assert_eq!(size_to_string(plan.saved), "5 bytes");
    assert_eq!(make_link(&args(false, false)), LinkKind::Reflink);
    assert_eq!(index.bucket_count(), 1);
    assert_eq!(index.bucket(0).size, 5);
    assert_eq!(index.bucket_len(0), 0);
}

#[test]
fn hardlink_mode_same_savings() {
    let mut index = tree_one();
    let groups = mainloop(&mut index);
    let probes = vec![probe(10, 4096), probe(11, 8192)];
    let plan = make_links(&groups[0], &probes);
    assert_eq!(plan.saved, 5);
    assert_eq!(make_link(&args(false, true)), LinkKind::Hardlink);
}

#[test]
fn dry_run_counts_but_writes_nothing() {
    let mut index = tree_one();
    let groups = mainloop(&mut index);
    let probes = vec![probe(10, 4096), probe(11, 8192)];
    let plan = make_links(&groups[0], &probes);
    assert_eq!(plan.saved, 5);
    assert_eq!(make_link(&args(true, false)), LinkKind::Skip);
    assert_eq!(make_link(&args(true, true)), LinkKind::Skip);
}

#[test]
fn cache_reuse_opens_nothing() {
    let mut index = Index::new();
    let mut entries = Vec::new();
    let mut cache = Vec::new();
    for i in 0..10u8 {
        let name = format!("f{}", i);
        entries.push(file(&name, 1, 1 << 20, 1000 + i as i64));
        cache.push(CacheEntry {
            path: name.as_bytes().to_vec(),
            record: IdxFileRecord { size: 1 << 20, mtime: 1000 + i as i64, hash: Some([i; 32]) },
        });
    }
    scandir(&mut index, 1, &entries);
    index.retain_multi();
    let pending = make_file_hashes(&mut index, &cache, false);
    assert!(pending.is_empty());
    for j in 0..10usize {
        let r = index.record(0, j);
        let i = r.path[1] - b'0';
        assert_eq!(r.blake3, Some([i; 32]));
    }
}

#[test]
fn size_bucket_filter() {
    let mut index = Index::new();
    let entries = vec![file("a", 1, 4, 1), file("b", 1, 4, 1), file("c", 1, 8, 1)];
    scandir(&mut index, 1, &entries);
    assert_eq!(index.bucket_count(), 2);
    index.retain_multi();
    assert_eq!(index.bucket_count(), 1);
    assert_eq!(index.bucket(0).size, 4);
    let pending = make_file_hashes(&mut index, &Vec::new(), false);
    assert_eq!(pending, vec![(0, 0), (0, 1)]);
    set_digests(&mut index, (0, 0), &digest_of(b"abcd", false));
    set_digests(&mut index, (0, 1), &digest_of(b"efgh", false));
    let groups = mainloop(&mut index);
    assert!(groups.is_empty());
    assert_eq!(index.bucket_count(), 1);
    assert_eq!(index.bucket(0).size, 4);
    assert_eq!(index.bucket_len(0), 1);
    assert_eq!(index.record(0, 0).path, b"a".to_vec());
}

#[test]
fn grouping_leaves_one_record_per_bucket() {
    let mut index = hashed_tree(&[
        ("a", b"xx"),
        ("b", b"yy"),
        ("c", b"xx"),
        ("d", b"pqr"),
        ("e", b"stu"),
        ("f", b"pqr"),
        ("g", b"pqr"),
    ]);
    let groups = mainloop(&mut index);
    let mut names: Vec<Vec<String>> = groups.iter().map(paths).collect();
    names.sort();
    assert_eq!(names, vec![vec!["c", "a"], vec!["g", "d", "f"]]);
    assert_eq!(index.bucket_count(), 2);
    for b in 0..2 {
        let size = index.bucket(b).size;
        assert_eq!(index.bucket_len(b), 1);
        let left = &index.record(b, 0).path;
        if size == 2 {
            assert_eq!(left, &b"b".to_vec());
        } else {
            assert_eq!(size, 3);
            assert_eq!(left, &b"e".to_vec());
        }
    }
}

#[test]
fn cross_device_not_descended() {
    let mut index = Index::new();
    let entries = vec![dir("mnt", 2), file("x", 1, 5, 1), dir("sub", 1), file("y", 2, 5, 1)];
    let sub = scandir(&mut index, 1, &entries);
    assert_eq!(sub, vec![b"sub".to_vec()]);
    assert_eq!(index.bucket_count(), 1);
    assert_eq!(index.bucket_len(0), 1);
    assert_eq!(index.record(0, 0).path, b"x".to_vec());
}

#[test]
fn symlinks_and_empty_files_skipped() {
    let mut index = Index::new();
    let mut link = file("l", 1, 5, 1);
    link.is_symlink = true;
    let mut dlink = dir("dl", 1);
    dlink.is_symlink = true;
    let entries = vec![link, dlink, file("e1", 1, 0, 1), file("e2", 1, 0, 1), file("f", 1, 5, 1)];
    let sub = scandir(&mut index, 1, &entries);
    assert!(sub.is_empty());
    assert_eq!(index.bucket_count(), 1);
    assert_eq!(index.record(0, 0).path, b"f".to_vec());
}

#[test]
fn already_linked_cases() {
    let a = LinkProbe { dev: 1, ino: 5, first_extent: Some(100) };
    let other_dev = LinkProbe { dev: 2, ino: 5, first_extent: Some(100) };
    let same_ino = LinkProbe { dev: 1, ino: 5, first_extent: Some(200) };
    let same_extent = LinkProbe { dev: 1, ino: 6, first_extent: Some(100) };
    let failed = LinkProbe { dev: 1, ino: 6, first_extent: None };
    let distinct = LinkProbe { dev: 1, ino: 6, first_extent: Some(300) };
    assert!(!already_linked(&a, &other_dev));
    assert!(already_linked(&a, &same_ino));
    assert!(already_linked(&a, &same_extent));
    assert!(already_linked(&a, &failed));
    assert!(already_linked(&failed, &a));
    assert!(!already_linked(&a, &distinct));
}

#[test]
fn shared_pairs_are_not_counted() {
    let group = vec![
        IdxRecord::new(b"a".to_vec(), 7, 1),
        IdxRecord::new(b"b".to_vec(), 7, 1),
        IdxRecord::new(b"c".to_vec(), 7, 1),
        IdxRecord::new(b"d".to_vec(), 7, 1),
    ];
    let probes = vec![probe(1, 10), probe(1, 10), probe(3, 30), probe(4, 10)];
    let plan = make_links(&group, &probes);
    assert_eq!(plan.dests, vec![2]);
    assert_eq!(plan.saved, 7);
}

#[test]
fn second_run_saves_nothing() {
    let group = vec![IdxRecord::new(b"a".to_vec(), 9, 1), IdxRecord::new(b"b".to_vec(), 9, 1)];
    let probes = vec![probe(1, 10), probe(2, 10)];
    let plan = make_links(&group, &probes);
    assert!(plan.dests.is_empty());
    assert_eq!(plan.saved, 0);
}

#[test]
fn saved_bytes_saturate() {
    let group = vec![
        IdxRecord::new(b"a".to_vec(), u64::MAX, 1),
        IdxRecord::new(b"b".to_vec(), u64::MAX, 1),
        IdxRecord::new(b"c".to_vec(), u64::MAX, 1),
    ];
    let probes = vec![probe(1, 10), probe(2, 20), probe(3, 30)];
    let plan = make_links(&group, &probes);
    assert_eq!(plan.dests, vec![1, 2]);
    assert_eq!(plan.saved, u64::MAX);
}

#[test]
fn linkable_takes_last_and_equals() {
    let mk = |p: &str, d: u8| {
        let mut r = IdxRecord::new(p.as_bytes().to_vec(), 3, 1);
        r.blake3 = Some([d; 32]);
        r
    };
    let mut sub = vec![mk("a", 1), mk("b", 2), mk("c", 1), mk("d", 2), mk("e", 1)];
    let class = subindex_linkable(&mut sub);
    assert_eq!(paths(&class), vec!["e", "a", "c"]);
    assert_eq!(paths(&sub), vec!["b", "d"]);
}

#[test]
fn secondary_digest_separates_classes() {
    let mk = |p: &str, s: u8| {
        let mut r = IdxRecord::new(p.as_bytes().to_vec(), 3, 1);
        r.blake3 = Some([9; 32]);
        r.sha2 = Some([s; 32]);
        r
    };
    let mut sub = vec![mk("a", 1), mk("b", 2), mk("c", 1)];
    let class = subindex_linkable(&mut sub);
    assert_eq!(paths(&class), vec!["c", "a"]);
    assert_eq!(paths(&sub), vec!["b"]);
}

#[test]
fn paranoid_hashes_everything_once() {
    let mut index = Index::new();
    let entries = vec![file("a", 1, 4, 7), file("b", 1, 4, 7), file("c", 1, 6, 7), file("d", 1, 6, 7)];
    scandir(&mut index, 1, &entries);
    let cache = vec![CacheEntry {
        path: b"a".to_vec(),
        record: IdxFileRecord { size: 4, mtime: 7, hash: Some([1; 32]) },
    }];
    let pending = make_file_hashes(&mut index, &cache, true);
    assert_eq!(pending, vec![(0, 0), (0, 1), (1, 0), (1, 1)]);
    assert_eq!(index.record(0, 0).blake3, None);
}

#[test]
fn cache_needs_same_mtime_and_size() {
    let mut index = Index::new();
    let entries = vec![file("a", 1, 4, 7), file("b", 1, 4, 7), file("c", 1, 4, 7)];
    scandir(&mut index, 1, &entries);
    let cache = vec![
        CacheEntry { path: b"a".to_vec(), record: IdxFileRecord { size: 4, mtime: 8, hash: Some([1; 32]) } },
        CacheEntry { path: b"b".to_vec(), record: IdxFileRecord { size: 5, mtime: 7, hash: Some([2; 32]) } },
        CacheEntry { path: b"c".to_vec(), record: IdxFileRecord { size: 4, mtime: 7, hash: Some([3; 32]) } },
    ];
    let pending = make_file_hashes(&mut index, &cache, false);
    assert_eq!(pending, vec![(0, 0), (0, 1)]);
    assert_eq!(index.record(0, 2).blake3, Some([3; 32]));
}

#[test]
fn cache_entries_hold_primary_digests_only() {
    let mut index = Index::new();
    let entries = vec![file("a", 1, 4, 7), file("b", 1, 4, 8)];
    scandir(&mut index, 1, &entries);
    let d = digest_of(b"abcd", true);
    set_digests(&mut index, (0, 1), &d);
    let out = indexfile_entries(&index);
    assert_eq!(out.len(), 1);
    assert_eq!(out[0].path, b"b".to_vec());
    assert_eq!(out[0].record.size, 4);
    assert_eq!(out[0].record.mtime, 8);
    assert_eq!(out[0].record.hash, Some(d.blake3));
}

#[test]
fn hasher_matches_blake3_and_sha256() {
    let mut h = FileHasher::new(true);
    h.update(b"hel");
    h.update(b"lo");
    let d = h.finish();
    let expected: [u8; 32] = blake3::hash(b"hello").into();
    assert_eq!(d.blake3, expected);
    let sha = d.sha2.unwrap();
    assert_eq!(sha[0], 0x2c);
    assert_eq!(sha[1], 0xf2);
    assert_eq!(sha[31], 0x24);
    let plain = digest_of(b"hello", false);
    assert_eq!(plain.blake3, expected);
    assert_eq!(plain.sha2, None);
    assert_ne!(digest_of(b"world", false).blake3, expected);
    assert_ne!(digest_of(b"", false).blake3, [0u8; 32]);
}

#[test]
fn temp_name_alphabet() {
    let name = temp_name(b".reflicate0.", &[0, 25, 26, 51, 52, 61, 62, 63]);
    assert_eq!(name, b".reflicate0.AZaz09-_".to_vec());
    let masked = temp_name(b"p", &[64, 255, 128, 1, 2, 3, 4, 5]);
    assert_eq!(masked, b"pA_ABCDEF".to_vec());
}

#[test]
fn temp_filename_shape() {
    let name = temp_filename(b".reflicate1.").unwrap();
    assert_eq!(name.len(), 12 + 8);
    assert!(name.starts_with(b".reflicate1."));
    for c in &name[12..] {
        assert!(c.is_ascii_alphanumeric() || *c == b'-' || *c == b'_');
    }
    let other = temp_filename(b".reflicate1.").unwrap();
    assert_ne!(name, other);
}

#[test]
fn size_strings() {
    assert_eq!(size_to_string(0), "0 bytes");
    assert_eq!(size_to_string(5), "5 bytes");
    assert_eq!(size_to_string(1023), "1023 bytes");
    assert_eq!(size_to_string(1024), "1.0 KiB");
    assert_eq!(size_to_string(1536), "1.5 KiB");
    assert_eq!(size_to_string(1 << 20), "1.0 MiB");
    assert_eq!(size_to_string(10 << 30), "10.0 GiB");
    assert_eq!(size_to_string(u64::MAX), "16.0 EiB");
}

#[test]
fn size_strings_match_float_formatting() {
    let units = ["bytes", "KiB", "MiB", "GiB", "TiB", "PiB", "EiB", "ZiB"];
    let mut samples: Vec<u64> = Vec::new();
    for f in 0..1024u64 {
        samples.push(1024 + f);
        samples.push(1023 * 1024 + f);
        samples.push((5 << 20) + f * 1024);
    }
    samples.push(u64::MAX - 1);
    for size in samples {
        let mut s = size;
        let mut f = 0;
        let mut i = 0;
        while s >= 1024 && i < units.len() - 1 {
            f = s % 1024;
            s /= 1024;
            i += 1;
        }
        let expected = format!("{:.1} {}", s as f64 + f as f64 / 1024.0, units[i]);
        assert_eq!(size_to_string(size), expected, "size {}", size);
    }
}

#[test]
fn trailing_slash() {
    assert_eq!(with_trailing_slash(&b"root".to_vec()), b"root/".to_vec());
    assert_eq!(with_trailing_slash(&b"root/".to_vec()), b"root/".to_vec());
    assert_eq!(with_trailing_slash(&Vec::new()), b"/".to_vec());
}

#[test]
fn saved_bytes_per_link() {
    assert_eq!(saved_bytes(5, 3), 15);
    assert_eq!(saved_bytes(7, 0), 0);
    assert_eq!(saved_bytes(u64::MAX, 2), u64::MAX);
}
