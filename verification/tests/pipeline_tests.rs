use portraits::bytes::Name;
use portraits::classify::Classifier;
use portraits::pipeline::{cleanup, prepare, Args};
use portraits::plan::{Move, MoveError, OriginalFileName};
use portraits::scan::Scan;
use portraits::checksum::Checksum;
use portraits::tree::{FileNode, Subdir, Tree};

fn file(name: &str, content: Option<&[u8]>) -> FileNode {
    FileNode {
        name: name.as_bytes().to_vec(),
        content: content.map(|c| c.to_vec()),
    }
}

fn dir(name: &str, files: Vec<FileNode>, subdirs: Vec<Subdir>) -> Subdir {
    Subdir {
        name: name.as_bytes().to_vec(),
        tree: Tree { files, subdirs },
    }
}

fn complete(name: &str, content: &[u8]) -> Subdir {
    dir(
        name,
        vec![
            file("Small.png", Some(content)),
            file("Medium.png", Some(content)),
            file("Fulllength.png", Some(content)),
        ],
        vec![],
    )
}

fn root(subdirs: Vec<Subdir>) -> Tree {
    Tree {
        files: vec![],
        subdirs,
    }
}

fn prefix() -> Vec<u8> {
    b"pf_portrait_".to_vec()
}

fn args(keep: bool, useless: bool, duplicates: bool) -> Args {
    Args {
        prefix: prefix(),
        keep_original_path: keep,
        remove_useless_dirs: useless,
        remove_duplicate_dirs: duplicates,
    }
}

fn path(components: &[&str]) -> Vec<Name> {
    components.iter().map(|c| c.as_bytes().to_vec()).collect()
}

#[test]
fn classifier_requires_all_three_markers() {
    let t = root(vec![
        complete("full", b"x"),
        dir(
            "missing_full",
            vec![
                file("Small.png", None),
                file("Medium.png", None),
            ],
            vec![],
        ),
        dir("empty", vec![], vec![]),
    ]);
    let s = Scan::new(&t, Classifier::CompleteSet);
    assert_eq!(s.dirs, vec![path(&["full"])]);
    let n = Scan::new(&t, Classifier::IncompleteSet);
    assert_eq!(n.dirs, vec![path(&["missing_full"]), path(&["empty"])]);
}

#[test]
fn classifier_ignores_subdirectories_with_marker_names() {
    let t = root(vec![dir(
        "tricky",
        vec![
            file("Medium.png", None),
            file("Fulllength.png", None),
        ],
        vec![dir("Small.png", vec![], vec![])],
    )]);
    let s = Scan::new(&t, Classifier::CompleteSet);
    assert!(s.dirs.is_empty());
}

#[test]
fn scan_records_ancestors_before_descendants() {
    let nested = Subdir {
        name: b"outer".to_vec(),
        tree: Tree {
            files: vec![
                file("Small.png", None),
                file("Medium.png", None),
                file("Fulllength.png", None),
            ],
            subdirs: vec![complete("inner", b"x")],
        },
    };
    let t = root(vec![nested, complete("sibling", b"y")]);
    let s = Scan::new(&t, Classifier::CompleteSet);
    assert_eq!(
        s.dirs,
        vec![
            path(&["outer"]),
            path(&["sibling"]),
            path(&["outer", "inner"]),
        ]
    );
    let outer_at = s.dirs.iter().position(|d| *d == path(&["outer"])).unwrap();
    let inner_at = s
        .dirs
        .iter()
        .position(|d| *d == path(&["outer", "inner"]))
        .unwrap();
    assert!(outer_at < inner_at);
}

#[test]
fn scan_of_empty_tree_is_empty() {
    let t = root(vec![]);
    let s = Scan::new(&t, Classifier::CompleteSet);
    assert!(s.dirs.is_empty());
}

#[test]
fn dedup_keeps_first_discovered_directory() {
    let t = root(vec![
        complete("x", b"same"),
        complete("y", b"same"),
        complete("z", b"other"),
    ]);
    let mut s = Scan::new(&t, Classifier::CompleteSet);
    let dups = s.erase_duplicates(&t);
    assert_eq!(s.dirs, vec![path(&["x"]), path(&["z"])]);
    assert_eq!(dups, vec![path(&["y"])]);
}

#[test]
fn dedup_is_idempotent() {
    let t = root(vec![
        complete("x", b"same"),
        complete("y", b"same"),
        complete("z", b"other"),
    ]);
    let mut s = Scan::new(&t, Classifier::CompleteSet);
    let _ = s.erase_duplicates(&t);
    let once = s.dirs.clone();
    let dups_again = s.erase_duplicates(&t);
    assert_eq!(s.dirs, once);
    assert!(dups_again.is_empty());
}

#[test]
fn dedup_keeps_directories_with_unavailable_fingerprints() {
    let unreadable = dir(
        "u",
        vec![
            file("Small.png", None),
            file("Medium.png", Some(b"m")),
            file("Fulllength.png", Some(b"f")),
        ],
        vec![],
    );
    let unreadable_twin = dir(
        "v",
        vec![
            file("Small.png", None),
            file("Medium.png", Some(b"m")),
            file("Fulllength.png", Some(b"f")),
        ],
        vec![],
    );
    let t = root(vec![unreadable, unreadable_twin]);
    let mut s = Scan::new(&t, Classifier::CompleteSet);
    let dups = s.erase_duplicates(&t);
    assert_eq!(s.dirs, vec![path(&["u"]), path(&["v"])]);
    assert!(dups.is_empty());
}

#[test]
fn checksum_digests_marker_bytes() {
    let t = root(vec![complete("x", b"abc")]);
    let cs = Checksum::from_dir(&t, &path(&["x"])).unwrap();
    let expected = md5::compute(b"abc").0.to_vec();
    assert_eq!(cs.small, expected);
    assert_eq!(cs.medium, expected);
    assert_eq!(cs.full, expected);
    assert_eq!(cs.small.len(), 16);
    assert_ne!(cs.small, b"abc".to_vec());
}

#[test]
fn checksum_distinguishes_different_contents() {
    let t = root(vec![complete("x", b"abc"), complete("y", b"abd")]);
    let a = Checksum::from_dir(&t, &path(&["x"])).unwrap();
    let b = Checksum::from_dir(&t, &path(&["y"])).unwrap();
    assert!(!a.same(&b));
    assert!(a.same(&a));
}

#[test]
fn checksum_unavailable_when_a_marker_is_unread() {
    let t = root(vec![dir(
        "x",
        vec![
            file("Small.png", Some(b"s")),
            file("Medium.png", None),
            file("Fulllength.png", Some(b"f")),
        ],
        vec![],
    )]);
    assert!(Checksum::from_dir(&t, &path(&["x"])).is_none());
}

#[test]
fn planner_fails_only_without_target_directory() {
    let t = root(vec![complete("x", b"x")]);
    let s = Scan::new(&t, Classifier::CompleteSet);
    let r = Move::new(&s, &None, &prefix(), false);
    assert!(matches!(r, Err(MoveError::TargetNotADirectory)));
    let ok = Move::new(&s, &Some(vec![]), &prefix(), false);
    assert!(ok.is_ok());
}

#[test]
fn sequential_fallback_numbers_from_zero() {
    let t = root(vec![
        complete("a", b"1"),
        complete("b", b"2"),
        complete("c", b"3"),
        complete("d", b"4"),
        complete("e", b"5"),
    ]);
    let s = Scan::new(&t, Classifier::CompleteSet);
    let m = Move::new(&s, &Some(vec![]), &prefix(), false).unwrap();
    let expected: Vec<Option<Vec<u8>>> = vec![
        Some(b"pf_portrait_000000".to_vec()),
        Some(b"pf_portrait_000001".to_vec()),
        Some(b"pf_portrait_000002".to_vec()),
        Some(b"pf_portrait_000003".to_vec()),
        Some(b"pf_portrait_000004".to_vec()),
    ];
    assert_eq!(m.output, expected);
}

#[test]
fn sequential_fallback_skips_existing_entries() {
    let t = root(vec![complete("a", b"1")]);
    let s = Scan::new(&t, Classifier::CompleteSet);
    let existing = vec![b"pf_portrait_000000".to_vec()];
    let m = Move::new(&s, &Some(existing), &prefix(), false).unwrap();
    assert_eq!(m.output, vec![Some(b"pf_portrait_000001".to_vec())]);
}

#[test]
fn path_preserving_name_joins_components_and_strips_prefix_once() {
    let leaf = complete("pf_portrait_C", b"c");
    let t = root(vec![dir(
        "A",
        vec![],
        vec![dir("B", vec![], vec![leaf])],
    )]);
    let s = Scan::new(&t, Classifier::CompleteSet);
    assert_eq!(s.dirs, vec![path(&["A", "B", "pf_portrait_C"])]);
    let m = Move::new(&s, &Some(vec![]), &prefix(), true).unwrap();
    assert_eq!(m.output, vec![Some(b"pf_portrait_A_B_C".to_vec())]);
}

#[test]
fn path_preserving_collision_appends_attempt_counter() {
    let t = root(vec![
        complete("pf_portrait_X", b"1"),
        complete("X", b"2"),
    ]);
    let s = Scan::new(&t, Classifier::CompleteSet);
    let m = Move::new(&s, &Some(vec![]), &prefix(), true).unwrap();
    assert_eq!(
        m.output,
        vec![
            Some(b"pf_portrait_X".to_vec()),
            Some(b"pf_portrait_X_001".to_vec()),
        ]
    );
}

#[test]
fn path_preserving_collision_with_existing_entry() {
    let t = root(vec![complete("X", b"1")]);
    let s = Scan::new(&t, Classifier::CompleteSet);
    let existing = vec![b"pf_portrait_X".to_vec()];
    let m = Move::new(&s, &Some(existing), &prefix(), true).unwrap();
    assert_eq!(m.output, vec![Some(b"pf_portrait_X_001".to_vec())]);
}

#[test]
fn planned_destinations_are_pairwise_distinct() {
    let t = root(vec![
        complete("pf_portrait_X", b"1"),
        complete("X", b"2"),
        complete("Y", b"3"),
    ]);
    let s = Scan::new(&t, Classifier::CompleteSet);
    let existing = vec![b"pf_portrait_Y".to_vec()];
    let m = Move::new(&s, &Some(existing.clone()), &prefix(), true).unwrap();
    let mut names: Vec<Vec<u8>> = m.output.iter().flatten().cloned().collect();
    assert_eq!(names.len(), 3);
    for n in &names {
        assert!(!existing.contains(n));
    }
    names.sort();
    names.dedup();
    assert_eq!(names.len(), 3);
}

#[test]
fn original_file_name_splits_and_strips() {
    let p = prefix();
    assert!(OriginalFileName::new(&p, &path(&[])).is_none());
    let o = OriginalFileName::new(&p, &path(&["A", "pf_portrait_C"])).unwrap();
    assert_eq!(o.dir_components, vec![b"A".to_vec()]);
    assert_eq!(o.file_name, b"C".to_vec());
    let twice = OriginalFileName::new(&p, &path(&["pf_portrait_pf_portrait_C"])).unwrap();
    assert_eq!(twice.file_name, b"pf_portrait_C".to_vec());
}

#[test]
fn move_iter_pairs_sources_with_destinations() {
    let t = root(vec![complete("a", b"1"), complete("b", b"2")]);
    let s = Scan::new(&t, Classifier::CompleteSet);
    let m = Move::new(&s, &Some(vec![]), &prefix(), false).unwrap();
    let pairs = m.iter();
    assert_eq!(pairs.len(), 2);
    assert_eq!(pairs[0].0, path(&["a"]));
    assert_eq!(pairs[0].1, Some(b"pf_portrait_000000".to_vec()));
    assert_eq!(pairs[1].0, path(&["b"]));
    assert_eq!(pairs[1].1, Some(b"pf_portrait_000001".to_vec()));
}

#[test]
fn duplicate_sources_leave_one_survivor_end_to_end() {
    let t = root(vec![complete("X", b"same"), complete("Y", b"same")]);
    let (s, dups) = prepare(&t, &args(false, false, true));
    assert_eq!(s.dirs, vec![path(&["X"])]);
    assert_eq!(dups, vec![path(&["Y"])]);
    let m = Move::new(&s, &Some(vec![]), &prefix(), false).unwrap();
    assert_eq!(m.output, vec![Some(b"pf_portrait_000000".to_vec())]);
}

#[test]
fn prepare_without_flag_keeps_duplicates() {
    let t = root(vec![complete("X", b"same"), complete("Y", b"same")]);
    let (s, dups) = prepare(&t, &args(false, false, false));
    assert_eq!(s.dirs, vec![path(&["X"]), path(&["Y"])]);
    assert!(dups.is_empty());
}

#[test]
fn cleanup_removes_incomplete_directories_only_when_asked() {
    let t = root(vec![
        complete("good", b"1"),
        dir(
            "bad",
            vec![
                file("Small.png", None),
                file("Medium.png", None),
            ],
            vec![],
        ),
    ]);
    let purged = cleanup(&t, &args(false, true, false));
    assert_eq!(purged, vec![path(&["bad"])]);
    let untouched = cleanup(&t, &args(false, false, false));
    assert!(untouched.is_empty());
}
