use vbranch_core::diff::{DiffHunk, FileDiff, WdFile};
use vbranch_core::error::CoreError;
use vbranch_core::handler::{Event, Handler};
use vbranch_core::ops::{replay, Operation};
use vbranch_core::ownership::{remove_range, shift_hunks, Hunk};
use vbranch_core::project::Project;
use vbranch_core::search::records_for_file;
use vbranch_core::session::FileDeltas;
use vbranch_core::config::{has_utmost_discretion, set_utmost_discretion, utmost_discretion_key};
use vbranch_core::vbranch::BranchCreateRequest;

fn chars(s: &str) -> Vec<char> {
    s.chars().collect()
}

fn lines(ls: &[&str]) -> Vec<String> {
    ls.iter().map(|s| s.to_string()).collect()
}

fn new_branch(name: &str, order: Option<u64>) -> BranchCreateRequest {
    BranchCreateRequest { name: name.to_string(), order }
}

#[test]
fn replay_is_deterministic() {
    let base = chars("hello");
    let ops = vec![
        Operation::Insert { at: 5, text: chars(" world") },
        Operation::Delete { at: 0, count: 1 },
        Operation::Insert { at: 0, text: chars("H") },
    ];
    let first = replay(&base, &ops).unwrap();
    let second = replay(&base, &ops).unwrap();
    assert_eq!(first, second);
    assert_eq!(first, chars("Hello world"));
}

#[test]
fn replay_rejects_out_of_bounds() {
    let base = chars("ab");
    let ops = vec![Operation::Delete { at: 1, count: 5 }];
    assert_eq!(replay(&base, &ops), Err(CoreError::MalformedOperation));
    let ops2 = vec![Operation::Insert { at: 3, text: chars("x") }];
    assert_eq!(replay(&base, &ops2), Err(CoreError::MalformedOperation));
}

#[test]
fn record_insert_delete_flush_scenario() {
    let mut p = Project::new(1, Vec::new());
    let _lane = p.create_virtual_branch(&new_branch("lane", None));
    let path = "a.txt".to_string();

    p.record(&path, Operation::Insert { at: 0, text: chars("X") }, 10).unwrap();
    let open = p.current_session.as_ref().unwrap();
    assert_eq!(open.files.len(), 1);
    assert_eq!(open.files[0].deltas.len(), 1);
    assert_eq!(open.files[0].deltas[0].operations.len(), 1);
    let after_insert = replay(&Vec::new(), &open.files[0].deltas[0].operations).unwrap();
    assert_eq!(after_insert, chars("X"));

    p.record(&path, Operation::Delete { at: 0, count: 1 }, 11).unwrap();
    let open = p.current_session.as_ref().unwrap();
    let mut all_ops = Vec::new();
    for d in &open.files[0].deltas {
        for o in &d.operations {
            all_ops.push(o.clone());
        }
    }
    let after_delete = replay(&Vec::new(), &all_ops).unwrap();
    assert_eq!(after_delete, Vec::<char>::new());

    let closed = p.flush(20, true, true).unwrap();
    assert_eq!(closed.ended_at_ms, Some(20));
    assert_eq!(closed.commit_hash, Some(1));
    assert!(p.current().is_none());
    assert_eq!(p.commits.len(), 1);
    let tree_entry = p.commits[0].tree.iter().find(|t| t.path == "a.txt").unwrap();
    let wd_entry = p.wd_text.iter().find(|t| t.path == "a.txt").unwrap();
    assert_eq!(tree_entry.text, wd_entry.text);
    assert_eq!(tree_entry.text, Vec::<char>::new());

    // A fresh session opens implicitly on the next edit.
    p.record(&path, Operation::Insert { at: 0, text: chars("Y") }, 30).unwrap();
    assert_eq!(p.current().unwrap().id, 2);
}

#[test]
fn record_rejects_malformed_operation() {
    let mut p = Project::new(1, Vec::new());
    let path = "a.txt".to_string();
    let r = p.record(&path, Operation::Delete { at: 0, count: 1 }, 5);
    assert_eq!(r, Err(CoreError::MalformedOperation));
    assert!(p.current().is_none());
}

#[test]
fn flush_failure_keeps_session_then_retry_succeeds() {
    let mut p = Project::new(1, Vec::new());
    p.create_virtual_branch(&new_branch("lane", None));
    let path = "a.txt".to_string();
    p.record(&path, Operation::Insert { at: 0, text: chars("data") }, 1).unwrap();

    let failed = p.flush(2, true, false);
    assert_eq!(failed, Err(CoreError::FlushFailed));
    assert!(p.current().is_some());
    assert_eq!(p.commits.len(), 0);
    assert_eq!(p.closed_sessions.len(), 0);

    let closed = p.flush(3, true, true).unwrap();
    assert_eq!(closed.commit_hash, Some(1));
    assert_eq!(p.commits.len(), 1);
    let tree_entry = p.commits[0].tree.iter().find(|t| t.path == "a.txt").unwrap();
    assert_eq!(tree_entry.text, chars("data"));
}

#[test]
fn flush_without_session_fails() {
    let mut p = Project::new(1, Vec::new());
    assert_eq!(p.flush(1, true, true), Err(CoreError::FlushFailed));
}

#[test]
fn flush_ownership_warning_does_not_stop_flush() {
    let mut p = Project::new(1, Vec::new());
    p.create_virtual_branch(&new_branch("lane", None));
    let path = "a.txt".to_string();
    p.record(&path, Operation::Insert { at: 0, text: chars("v") }, 1).unwrap();
    let closed = p.flush(2, false, true).unwrap();
    assert_eq!(closed.commit_hash, Some(1));
    assert_eq!(p.verify_warnings, 1);
    assert_eq!(p.commits.len(), 1);
}

#[test]
fn handler_skips_while_flush_in_flight() {
    let mut p = Project::new(7, Vec::new());
    p.create_virtual_branch(&new_branch("lane", None));
    let path = "a.txt".to_string();
    p.record(&path, Operation::Insert { at: 0, text: chars("z") }, 1).unwrap();
    let mut h = Handler::new(p);

    h.busy = true;
    let skipped = h.handle(7, 2, true, true).unwrap();
    assert!(skipped.is_empty());
    assert!(h.project.current_session.is_some());
    assert_eq!(h.project.commits.len(), 0);

    h.busy = false;
    let events = h.handle(7, 3, true, true).unwrap();
    assert_eq!(events.len(), 3);
    match events[0] {
        Event::Session(pid, closed) => {
            assert_eq!(pid, 7);
            assert_eq!(closed.commit_hash, Some(1));
        },
        _ => panic!("first event must surface the closed session"),
    }
    assert_eq!(events[1], Event::PushGitbutlerData(7));
    assert_eq!(events[2], Event::PushProjectToGitbutler(7));
    // Every delta recorded before the flush is in the produced commit.
    let tree_entry = h.project.commits[0].tree.iter().find(|t| t.path == "a.txt").unwrap();
    assert_eq!(tree_entry.text, chars("z"));
}

#[test]
fn handler_surfaces_flush_failure() {
    let mut p = Project::new(7, Vec::new());
    p.create_virtual_branch(&new_branch("lane", None));
    let path = "a.txt".to_string();
    p.record(&path, Operation::Insert { at: 0, text: chars("z") }, 1).unwrap();
    let mut h = Handler::new(p);
    assert_eq!(h.handle(7, 2, true, false), Err(CoreError::FlushFailed));
    assert!(h.project.current_session.is_some());
}

#[test]
fn new_hunk_defaults_to_lowest_ordered_branch() {
    let base = vec![WdFile { path: "b.txt".to_string(), lines: lines(&["l0", "l1", "l2", "l3"]) }];
    let mut p = Project::new(2, base);
    let a = p.create_virtual_branch(&new_branch("A", Some(5)));
    let b = p.create_virtual_branch(&new_branch("B", Some(0)));
    let diff = vec![
        FileDiff {
            path: "b.txt".to_string(),
            hunks: vec![
                DiffHunk { start: 0, removed: 1, lines: lines(&["A0"]) },
                DiffHunk { start: 2, removed: 1, lines: lines(&["N2"]) },
            ],
        },
    ];
    p.apply_branch(b, &diff).unwrap();
    // A claims the first hunk; the second stays unclaimed.
    p.assign(&"b.txt".to_string(), Hunk { start: 0, count: 1 }, a).unwrap();

    // The unclaimed hunk defaults to B, the lowest-ordered applied branch.
    let da = p.diff_for(0, &diff);
    assert_eq!(da.len(), 1);
    assert_eq!(da[0].hunks.len(), 1);
    assert_eq!(da[0].hunks[0].start, 0);
    let db = p.diff_for(1, &diff);
    assert_eq!(db[0].hunks.len(), 1);
    assert_eq!(db[0].hunks[0].start, 2);
}

#[test]
fn apply_then_unapply_restores_working_directory() {
    let base = vec![WdFile { path: "d.txt".to_string(), lines: lines(&["x", "y", "z"]) }];
    let mut p = Project::new(3, base);
    let _a = p.create_virtual_branch(&new_branch("A", None));
    let b = p.create_virtual_branch(&new_branch("B", None));
    let diff = vec![
        FileDiff {
            path: "d.txt".to_string(),
            hunks: vec![
                DiffHunk { start: 0, removed: 1, lines: lines(&["X"]) },
                DiffHunk { start: 2, removed: 1, lines: lines(&["Z"]) },
            ],
        },
    ];
    // Give B a claim on the second hunk, then park B unapplied.
    p.apply_branch(b, &diff).unwrap();
    p.assign(&"d.txt".to_string(), Hunk { start: 2, count: 1 }, b).unwrap();
    let parked = p.materialize(&diff);
    let wd0 = p.unapply_branch(b, &diff, &parked).unwrap();
    assert_eq!(wd0[0].lines, lines(&["X", "y", "z"]));

    // Apply, then unapply: the working directory returns byte for byte.
    let wd1 = p.apply_branch(b, &diff).unwrap();
    assert_eq!(wd1[0].lines, lines(&["X", "y", "Z"]));
    let wd2 = p.unapply_branch(b, &diff, &wd1).unwrap();
    assert_eq!(wd2.len(), wd0.len());
    assert_eq!(wd2[0].path, wd0[0].path);
    assert_eq!(wd2[0].lines, wd0[0].lines);
}

#[test]
fn unapply_refuses_dirty_working_directory() {
    let base = vec![WdFile { path: "d.txt".to_string(), lines: lines(&["x"]) }];
    let mut p = Project::new(3, base);
    let a = p.create_virtual_branch(&new_branch("A", None));
    let diff = vec![
        FileDiff {
            path: "d.txt".to_string(),
            hunks: vec![DiffHunk { start: 0, removed: 1, lines: lines(&["X"]) }],
        },
    ];
    let dirty = vec![WdFile { path: "d.txt".to_string(), lines: lines(&["edited elsewhere"]) }];
    let r = p.unapply_branch(a, &diff, &dirty);
    assert!(matches!(r, Err(CoreError::DirtyUnapplyConflict)));
    // The branch remains applied.
    assert!(p.branches[0].applied);
}

#[test]
fn apply_refuses_clobbering_claims() {
    let base = vec![WdFile { path: "e.txt".to_string(), lines: lines(&["1", "2"]) }];
    let mut p = Project::new(4, base);
    let a = p.create_virtual_branch(&new_branch("A", None));
    let c = p.create_virtual_branch(&new_branch("C", None));
    let diff = vec![
        FileDiff {
            path: "e.txt".to_string(),
            hunks: vec![DiffHunk { start: 0, removed: 1, lines: lines(&["one"]) }],
        },
    ];
    // C takes the claim while applied, then parks; A claims the same range.
    p.apply_branch(c, &diff).unwrap();
    p.assign(&"e.txt".to_string(), Hunk { start: 0, count: 1 }, c).unwrap();
    let parked = p.materialize(&diff);
    p.unapply_branch(c, &diff, &parked).unwrap();
    p.assign(&"e.txt".to_string(), Hunk { start: 0, count: 1 }, a).unwrap();

    let r = p.apply_branch(c, &diff);
    assert!(matches!(r, Err(CoreError::OwnershipConflict)));
    assert!(!p.branches[1].applied);
}

#[test]
fn assign_requires_an_applied_branch() {
    let mut p = Project::new(4, Vec::new());
    let _a = p.create_virtual_branch(&new_branch("A", None));
    let b = p.create_virtual_branch(&new_branch("B", None));
    let r = p.assign(&"f.txt".to_string(), Hunk { start: 0, count: 1 }, b);
    assert_eq!(r, Err(CoreError::OwnershipConflict));
    let r2 = p.assign(&"f.txt".to_string(), Hunk { start: 0, count: 1 }, 999);
    assert_eq!(r2, Err(CoreError::OwnershipConflict));
}

#[test]
fn assign_splits_other_branches_claims() {
    let mut p = Project::new(4, Vec::new());
    let a = p.create_virtual_branch(&new_branch("A", None));
    let b = p.create_virtual_branch(&new_branch("B", None));
    let path = "g.txt".to_string();
    p.assign(&path, Hunk { start: 0, count: 10 }, a).unwrap();
    // B takes the middle; A keeps both sides.
    p.apply_branch(b, &Vec::new()).unwrap();
    p.assign(&path, Hunk { start: 4, count: 2 }, b).unwrap();
    let a_owned = &p.branches[0].ownership[0].hunks;
    let total: usize = a_owned.iter().map(|h| h.count).sum();
    assert_eq!(total, 8);
    assert!(a_owned.iter().all(|h| h.start + h.count <= 4 || h.start >= 6));
    let b_owned = &p.branches[1].ownership[0].hunks;
    assert_eq!(b_owned.len(), 1);
    assert_eq!((b_owned[0].start, b_owned[0].count), (4, 2));
}

#[test]
fn remove_range_splits_ranges() {
    let hunks = vec![Hunk { start: 0, count: 10 }];
    let out = remove_range(&hunks, Hunk { start: 3, count: 4 });
    assert_eq!(out.len(), 2);
    assert_eq!((out[0].start, out[0].count), (0, 3));
    assert_eq!((out[1].start, out[1].count), (7, 3));
}

#[test]
fn shift_hunks_reanchors_ranges_below_an_edit() {
    let hunks = vec![Hunk { start: 2, count: 2 }, Hunk { start: 10, count: 3 }];
    // Replace one line at line 5 by three lines: net shift +2 below line 6.
    let out = shift_hunks(&hunks, 5, 1, 3);
    assert_eq!((out[0].start, out[0].count), (2, 2));
    assert_eq!((out[1].start, out[1].count), (12, 3));
}

#[test]
fn index_records_reconstruct_deleted_text() {
    let file = FileDeltas {
        path: "a.txt".to_string(),
        base_text: chars("ab"),
        deltas: vec![
            vbranch_core::ops::Delta {
                timestamp_ms: 1,
                operations: vec![Operation::Insert { at: 2, text: chars("cd") }],
            },
            vbranch_core::ops::Delta {
                timestamp_ms: 2,
                operations: vec![Operation::Delete { at: 0, count: 2 }],
            },
        ],
    };
    let hash = "deadbeef".to_string();
    let recs = records_for_file(&hash, &file).unwrap();
    assert_eq!(recs.len(), 2);
    assert_eq!(recs[0].index, 0);
    assert_eq!(recs[0].diff, chars("cd"));
    assert!(recs[0].is_addition);
    assert!(!recs[0].is_deletion);
    assert_eq!(recs[0].session_hash, "deadbeef");
    assert_eq!(recs[0].file_path, "a.txt");
    // The deleted text is reconstructed from the replayed state "abcd".
    assert_eq!(recs[1].index, 1);
    assert_eq!(recs[1].diff, chars("ab"));
    assert!(recs[1].is_deletion);
}

#[test]
fn index_records_surface_journal_corruption() {
    let file = FileDeltas {
        path: "a.txt".to_string(),
        base_text: chars(""),
        deltas: vec![
            vbranch_core::ops::Delta {
                timestamp_ms: 1,
                operations: vec![Operation::Delete { at: 0, count: 1 }],
            },
        ],
    };
    let hash = "h".to_string();
    assert!(matches!(records_for_file(&hash, &file), Err(CoreError::MalformedOperation)));
}

#[test]
fn sync_computes_ahead_behind_and_merge_base() {
    let mut p = Project::new(9, Vec::new());
    p.create_virtual_branch(&new_branch("lane", None));
    let path = "a.txt".to_string();
    p.record(&path, Operation::Insert { at: 0, text: chars("one") }, 1).unwrap();
    p.flush(2, true, true).unwrap();
    p.record(&path, Operation::Insert { at: 3, text: chars(" two") }, 3).unwrap();
    p.flush(4, true, true).unwrap();
    assert_eq!(p.commits.len(), 2);

    p.set_base_branch("main".to_string(), "origin/main".to_string(), Some(1));
    p.sync(1, true).unwrap();
    let b = p.base_branch.as_ref().unwrap();
    assert_eq!(b.merge_base_hash, Some(1));
    assert!(b.behind_commits.is_empty());
    assert_eq!(b.ahead_commits, vec![2]);
    assert!(b.integrated_commit_hashes.is_empty());
    assert!(!b.stale);
}

#[test]
fn sync_unreachable_keeps_stale_data() {
    let mut p = Project::new(9, Vec::new());
    p.create_virtual_branch(&new_branch("lane", None));
    let path = "a.txt".to_string();
    p.record(&path, Operation::Insert { at: 0, text: chars("one") }, 1).unwrap();
    p.flush(2, true, true).unwrap();
    p.set_base_branch("main".to_string(), "origin/main".to_string(), Some(1));
    assert_eq!(p.sync(1, false), Err(CoreError::SyncUnavailable));
    let b = p.base_branch.as_ref().unwrap();
    assert!(b.stale);
    assert_eq!(b.name, "main");
    assert_eq!(b.merge_base_hash, Some(1));
}

#[test]
fn close_archives_without_commit() {
    let mut p = Project::new(5, Vec::new());
    let path = "a.txt".to_string();
    p.record(&path, Operation::Insert { at: 0, text: chars("q") }, 1).unwrap();
    let closed = p.close(9);
    assert_eq!(closed.ended_at_ms, Some(9));
    assert_eq!(closed.commit_hash, None);
    assert!(p.current().is_none());
    assert_eq!(p.closed_sessions.len(), 1);
}

#[test]
fn branch_lifecycle_create_update_delete() {
    let mut p = Project::new(6, Vec::new());
    let a = p.create_virtual_branch(&new_branch("first", None));
    assert!(p.branches[0].applied, "the first branch of a bare project auto-applies");
    let b = p.create_virtual_branch(&new_branch("second", None));
    assert!(!p.branches[1].applied);
    assert_ne!(a, b);

    p.update_virtual_branch(vbranch_core::vbranch::BranchUpdateRequest {
        id: b,
        name: Some("renamed".to_string()),
        order: Some(9),
    });
    assert_eq!(p.branches[1].name, "renamed");
    assert_eq!(p.branches[1].order, 9);

    p.delete_virtual_branch(b);
    assert_eq!(p.branches.len(), 1);
    assert_eq!(p.branches[0].id, a);

    let seeded = p.create_virtual_branch_from_branch(
        "tracked".to_string(),
        "refs/remotes/origin/tracked".to_string(),
        None,
    );
    let last = p.branches.last().unwrap();
    assert_eq!(last.id, seeded);
    assert_eq!(last.upstream.as_deref(), Some("refs/remotes/origin/tracked"));
    assert_eq!(p.list_virtual_branches().len(), 2);
}

#[test]
fn discretion_config_round_trip() {
    assert_eq!(utmost_discretion_key(), "gitbutler.utmostDiscretion");
    assert!(has_utmost_discretion(&Some("true".to_string())));
    assert!(!has_utmost_discretion(&Some("false".to_string())));
    assert!(!has_utmost_discretion(&None));
    assert_eq!(set_utmost_discretion(true), "true");
    assert_eq!(set_utmost_discretion(false), "false");
    assert!(has_utmost_discretion(&Some(set_utmost_discretion(true).to_string())));
}

#[test]
fn error_descriptions_are_stable() {
    assert_eq!(CoreError::MalformedOperation.describe(), "malformed operation");
    assert_eq!(CoreError::OwnershipConflict.describe(), "ownership conflict");
    assert_eq!(CoreError::DirtyUnapplyConflict.describe(), "dirty unapply conflict");
    assert_eq!(CoreError::FlushFailed.describe(), "flush failed");
    assert_eq!(CoreError::SyncUnavailable.describe(), "sync unavailable");
}
