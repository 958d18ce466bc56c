use pkgar::entry::{Entry, Mode};
use pkgar::error::{EntryError, Error};
use pkgar::transaction::{check_paths, Action, Transaction};

fn entry_at(path: &[u8]) -> Entry {
    Entry::new([1; 32], 0, 0, Mode::from_bits(0o644).unwrap(), path).unwrap()
}

fn dir(path: &[u8]) -> Action {
    Action::CreateDir(path.to_vec())
}

fn rmdir(path: &[u8]) -> Action {
    Action::RemoveDir(path.to_vec())
}

#[test]
fn check_paths_gives_every_path() {
    let entries = [entry_at(b"a/b.txt"), entry_at(b"c.txt")];
    assert_eq!(
        check_paths(&entries),
        Ok(vec![b"a/b.txt".to_vec(), b"c.txt".to_vec()])
    );
    assert_eq!(check_paths(&[]), Ok(Vec::new()));
}

#[test]
fn check_paths_fails_at_the_first_unsafe_path() {
    let entries = [entry_at(b"ok"), entry_at(b"x/../y"), entry_at(b"/abs")];
    assert_eq!(
        check_paths(&entries),
        Err(Error::Entry(
            entries[1],
            EntryError::InvalidPathComponent(b"..".to_vec())
        ))
    );
}

#[test]
fn install_creates_parents_then_writes() {
    let entries = [entry_at(b"a/b/c.txt"), entry_at(b"d.txt"), entry_at(b"a/e")];
    let plan = Transaction::install(&entries).unwrap().commit();
    assert_eq!(
        plan,
        vec![
            dir(b"a"),
            dir(b"a/b"),
            Action::WriteFile(b"a/b/c.txt".to_vec(), entries[0]),
            Action::WriteFile(b"d.txt".to_vec(), entries[1]),
            dir(b"a"),
            Action::WriteFile(b"a/e".to_vec(), entries[2]),
        ]
    );
}

#[test]
fn install_of_nothing_plans_nothing() {
    assert_eq!(Transaction::install(&[]).unwrap().commit(), Vec::new());
    assert_eq!(Transaction::remove(&[]).unwrap().commit(), Vec::new());
}

#[test]
fn install_plans_nothing_for_an_unsafe_path() {
    for bad in [&b"../x"[..], b"/etc/passwd", b"a//b", b"a/..", b"", b"./a", b"a/"] {
        let entries = [entry_at(b"fine"), entry_at(bad), entry_at(b"also/fine")];
        let planned = Transaction::install(&entries);
        match planned {
            Err(Error::Entry(entry, EntryError::InvalidPathComponent(_))) => {
                assert_eq!(entry, entries[1])
            }
            other => panic!("expected a refusal, got {:?}", other.map(|t| t.commit())),
        }
        assert!(Transaction::remove(&entries).is_err());
    }
}

#[test]
fn remove_takes_files_then_directories_from_the_inside() {
    let entries = [entry_at(b"a/b/c.txt"), entry_at(b"d.txt"), entry_at(b"a/e/f")];
    let plan = Transaction::remove(&entries).unwrap().commit();
    assert_eq!(
        plan,
        vec![
            Action::RemoveFile(b"a/b/c.txt".to_vec()),
            Action::RemoveFile(b"d.txt".to_vec()),
            Action::RemoveFile(b"a/e/f".to_vec()),
            rmdir(b"a/b"),
            rmdir(b"a"),
            rmdir(b"a/e"),
            rmdir(b"a"),
        ]
    );
}

#[test]
fn actions_are_what_commit_hands_out() {
    let entries = [entry_at(b"x/y")];
    let transaction = Transaction::install(&entries).unwrap();
    let seen = transaction.actions().clone();
    assert_eq!(seen.len(), 2);
    assert_eq!(transaction.commit(), seen);
}

#[test]
fn every_file_is_written_after_its_parents() {
    let entries = [
        entry_at(b"usr/lib/a.so"),
        entry_at(b"usr/bin/tool"),
        entry_at(b"etc/conf.d/x/y/z"),
        entry_at(b"top"),
    ];
    let plan = Transaction::install(&entries).unwrap().commit();
    for (k, action) in plan.iter().enumerate() {
        if let Action::WriteFile(path, _) = action {
            for (i, byte) in path.iter().enumerate() {
                if *byte == b'/' {
                    let parent = Action::CreateDir(path[..i].to_vec());
                    assert!(plan[..k].contains(&parent));
                }
            }
        }
    }
    let written: Vec<&Action> =
        plan.iter().filter(|a| matches!(a, Action::WriteFile(..))).collect();
    assert_eq!(written.len(), 4);
}

#[test]
fn every_directory_is_removed_after_what_lies_in_it() {
    let entries = [
        entry_at(b"usr/lib/a.so"),
        entry_at(b"usr/bin/tool"),
        entry_at(b"etc/conf.d/x/y/z"),
        entry_at(b"top"),
    ];
    let plan = Transaction::remove(&entries).unwrap().commit();
    let first_dir = plan.iter().position(|a| matches!(a, Action::RemoveDir(_))).unwrap();
    assert_eq!(first_dir, 4);
    assert!(plan[first_dir..].iter().all(|a| matches!(a, Action::RemoveDir(_))));
    for (k, action) in plan.iter().enumerate() {
        if let Action::RemoveDir(path) = action {
            for (i, byte) in path.iter().enumerate() {
                if *byte == b'/' {
                    let parent = Action::RemoveDir(path[..i].to_vec());
                    assert!(plan[k + 1..].contains(&parent));
                }
            }
        }
    }
}
