use forgeindex::watcher::{gitdir_of, hook_script_text, install_hook_content, uninstall_hook_content, Debouncer, HookRemoval};

#[test]
fn a_fresh_hook_is_the_script_and_removing_it_deletes_the_file() {
    let installed = install_hook_content(None).unwrap();
    assert_eq!(installed, hook_script_text());
    assert!(matches!(uninstall_hook_content(&installed), HookRemoval::Delete));
    assert!(install_hook_content(Some(&installed)).is_none());
}

#[test]
fn an_existing_hook_keeps_its_own_lines() {
    let existing = "#!/bin/sh\necho before\n";
    let installed = install_hook_content(Some(existing)).unwrap();
    assert!(installed.starts_with(existing));
    assert!(installed.contains("# ForgeIndex auto-reindex hook"));
    match uninstall_hook_content(&installed) {
        HookRemoval::Rewrite(rest) => assert_eq!(rest, "#!/bin/sh\necho before"),
        other => panic!("unexpected {:?}", other),
    }
    assert!(matches!(uninstall_hook_content(existing), HookRemoval::Untouched));
}

#[test]
fn gitdir_files_point_at_their_directory() {
    assert_eq!(gitdir_of("gitdir: ../.git/worktrees/x\n"), "../.git/worktrees/x");
    assert_eq!(gitdir_of("  /abs/path  "), "/abs/path");
}

#[test]
fn changes_wait_for_the_debounce_interval() {
    let mut d = Debouncer::new();
    d.note("a.py", 100);
    d.note("b.py", 150);
    d.note("a.py", 180);
    assert_eq!(d.take_ready(300, 200), Vec::<String>::new());
    assert_eq!(d.take_ready(360, 200), vec!["b.py"]);
    assert_eq!(d.take_ready(380, 200), vec!["a.py"]);
    assert_eq!(d.take_ready(1000, 200), Vec::<String>::new());
}

#[test]
fn installing_twice_and_reinstalling_after_removal() {
    let existing = "#!/bin/sh\necho before\n";
    let once = install_hook_content(Some(existing)).unwrap();
    assert!(install_hook_content(Some(&once)).is_none());
    let rest = match uninstall_hook_content(&once) {
        HookRemoval::Rewrite(rest) => rest,
        other => panic!("unexpected {:?}", other),
    };
    assert!(!rest.contains("# ForgeIndex auto-reindex hook"));
    let again = install_hook_content(Some(&rest)).unwrap();
    assert_eq!(again, format!("{rest}\n\n{}", hook_script_text()));
}

#[test]
fn removing_the_hook_restores_what_was_there() {
    for existing in ["#!/bin/sh\necho before\n", "#!/bin/bash\nset -e\nmake lint\n", "echo one\n\necho two\n"] {
        let installed = install_hook_content(Some(existing)).unwrap();
        match uninstall_hook_content(&installed) {
            HookRemoval::Rewrite(rest) => assert_eq!(rest.trim(), existing.trim()),
            other => panic!("unexpected {:?}", other),
        }
    }
}
