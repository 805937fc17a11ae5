use editpad::autosave::{autosave_must_skip, autosave_step, AutosaveStep, FileStamp};
use editpad::backup::{
    backup_dir_name, backups_to_prune, simple_backup_name, timestamped_backup_name, MAX_TIMESTAMPED_BACKUPS,
};

#[test]
fn backup_names_follow_the_layout() {
    assert_eq!(simple_backup_name("note.txt"), "note.txt.bak");
    assert_eq!(backup_dir_name("note.txt"), "note.txt.bak.d");
    assert_eq!(timestamped_backup_name("note.txt", "20260101-120000", 0), "note.txt.20260101-120000.bak");
    assert_eq!(timestamped_backup_name("note.txt", "20260101-120000", 1), "note.txt.20260101-120000-1.bak");
    assert_eq!(timestamped_backup_name("a", "s", 12), "a.s-12.bak");
}

#[test]
fn prune_keeps_the_newest_cap_of_this_files_copies() {
    let mut names: Vec<String> = (0..40).map(|i| format!("note.txt.20260101-{:06}.bak", 100_000 + i)).collect();
    names.push("note.txt.20990101-000000.bak".to_string());
    // other files in the folder are never touched
    names.push("other.txt.20260101-000000.bak".to_string());
    names.push("note.txt.20260101-000000.tmp".to_string());
    names.reverse();
    let stale = backups_to_prune(&names, "note.txt");
    assert_eq!(stale.len(), 41 - MAX_TIMESTAMPED_BACKUPS);
    assert_eq!(stale[0], "note.txt.20260101-100000.bak", "the oldest goes first");
    assert_eq!(stale[20], "note.txt.20260101-100020.bak");
    assert!(!stale.iter().any(|n| n.contains("100021") || n.contains("100039") || n.contains("2099")));
    assert!(!stale.iter().any(|n| n.starts_with("other") || n.ends_with(".tmp")));
}

#[test]
fn prune_leaves_a_folder_within_the_cap_alone() {
    let names: Vec<String> = (0..MAX_TIMESTAMPED_BACKUPS).map(|i| format!("f.{i:03}.bak")).collect();
    assert!(backups_to_prune(&names, "f").is_empty());
    assert!(backups_to_prune(&Vec::new(), "f").is_empty());
    // same-second copies sort after the plain one of that second
    let mut more = names.clone();
    more.push("f.000-1.bak".to_string());
    assert_eq!(backups_to_prune(&more, "f"), vec!["f.000.bak".to_string()]);
}

#[test]
fn autosave_decisions() {
    let a = FileStamp { secs: 10, nanos: 5, len: 3 };
    let b = FileStamp { secs: 10, nanos: 6, len: 3 };
    assert!(!autosave_must_skip(None, Some(a)), "no expected stamp: write");
    assert!(!autosave_must_skip(Some(a), Some(a)));
    assert!(autosave_must_skip(Some(a), Some(b)), "changed on disk: skip");
    assert!(autosave_must_skip(Some(a), None), "deleted on disk: skip");
    assert_eq!(autosave_step(2, 1, None, None), AutosaveStep::Superseded);
    assert_eq!(autosave_step(1, 1, Some(a), Some(b)), AutosaveStep::SkipExternalChange);
    assert_eq!(autosave_step(1, 1, Some(a), Some(a)), AutosaveStep::Write);
}
