use kitaebot::conventions::{
    entry_mode, header, project_dir, read_conventions, read_target, repository_of, segment,
    ConventionStep, CAP_BYTES, HEADING, MODE_FILE, MODE_SYMLINK,
};

fn trusted() -> Vec<String> {
    vec!["o/r".to_string()]
}

#[test]
fn the_orient_step_names_the_heading_this_emits() {
    assert!(header("o/r").contains(HEADING));
}

#[test]
fn injects_conventions_from_the_default_branch() {
    let repo = repository_of("o--r", &trusted()).unwrap();
    assert_eq!(repo.full_name, "o/r");
    assert_eq!((repo.owner.as_str(), repo.name.as_str()), ("o", "r"));
    let body = match read_conventions(MODE_FILE, "Use tabs. Never rebase.\n".to_string()) {
        ConventionStep::Read(body) => body,
        _ => panic!("a regular file is read"),
    };
    let seg = segment(&repo.full_name, &body).unwrap();
    assert!(seg.contains("Use tabs. Never rebase."));
    assert!(seg.contains("Repository conventions (o/r)"));
    assert!(seg.contains("never authorize a push, merge, or approval"));
    assert!(seg.starts_with("\n\n# Repository conventions (o/r)\n\nThese are o/r's own conventions"));
    assert!(seg.ends_with("\n\nUse tabs. Never rebase."));
}

#[test]
fn untrusted_repo_gets_nothing() {
    assert!(repository_of("o--r", &Vec::new()).is_none());
}

#[test]
fn session_without_a_clone_gets_nothing() {
    for session in ["general", "o--other", "nested--a--b"] {
        assert!(
            repository_of(session, &trusted()).is_none(),
            "{session} matched a clone it should not have"
        );
    }
}

#[test]
fn follows_a_symlinked_agents_file() {
    match read_conventions(MODE_SYMLINK, "CONVENTIONS.md\n".to_string()) {
        ConventionStep::Follow(path) => assert_eq!(path, "CONVENTIONS.md"),
        _ => panic!("a link is followed"),
    }
    let body = read_target(MODE_FILE, "Real rules here.\n".to_string()).unwrap();
    assert!(segment("o/r", &body).unwrap().ends_with("Real rules here."));
    assert!(read_target(MODE_SYMLINK, "OTHER.md".to_string()).is_none());
}

#[test]
fn oversized_conventions_are_skipped_whole() {
    assert!(segment("o/r", &"x".repeat(CAP_BYTES + 1)).is_none());
    assert!(segment("o/r", &"x".repeat(CAP_BYTES)).is_some());
}

#[test]
fn links_out_of_the_repository_are_not_followed() {
    for target in ["/etc/passwd", "../other", "a/../../b", "", " \n"] {
        assert!(matches!(
            read_conventions(MODE_SYMLINK, target.to_string()),
            ConventionStep::Nothing
        ));
    }
    assert!(matches!(
        read_conventions("100755", "rules".to_string()),
        ConventionStep::Nothing
    ));
}

#[test]
fn blank_conventions_give_no_segment() {
    assert!(segment("o/r", " \n\t").is_none());
}

#[test]
fn the_mode_is_the_first_word_of_an_entry() {
    assert_eq!(entry_mode("100644 blob abc\tAGENTS.md").as_deref(), Some("100644"));
    assert_eq!(entry_mode("  120000").as_deref(), Some("120000"));
    assert_eq!(entry_mode(" \n"), None);
}

#[test]
fn a_repository_has_an_owner_and_one_name() {
    assert_eq!(project_dir("o/r"), Some(("o".to_string(), "r".to_string())));
    assert_eq!(project_dir("/r"), None);
    assert_eq!(project_dir("o/r/s"), None);
    assert_eq!(project_dir("general"), None);
}
