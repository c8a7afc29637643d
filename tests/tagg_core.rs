use tagg::comments::{Comments, COMMENT_MAIN, COMMENT_TITLE};
use tagg::ids::{choose_filename, storage_name};
use tagg::paths::{expand_path, extension_or_empty, resolve_config_path, resolve_expanded, Config, ConfigError};
use tagg::state::{commit_effects, AddedFile, CommitError, StageError, Staged, State, Target};
use tagg::storage::{FileInfo, Lookup, Storage};
use tagg::tags::{contains_tag, merge_tags};
use tagg::title::{first_title_step, fixup_pdf_title, is_pdf_title_bad, next_title_step, TitleStep};

fn strings(items: &[&str]) -> Vec<String> {
    items.iter().map(|s| s.to_string()).collect()
}

fn stored(name: &str, tags: &[&str]) -> FileInfo {
    FileInfo {
        filename: name.to_string(),
        original_filename: None,
        tags: strings(tags),
        comments: Comments::new(),
    }
}

fn sorted(mut v: Vec<String>) -> Vec<String> {
    v.sort();
    v
}

fn stage_file(state: &mut State, path: &str, tags: &[&str]) -> Result<Staged, StageError> {
    state.stage(Target::File(path.to_string()), &strings(tags), None, false)
}

#[test]
fn staging_same_path_twice_merges_tags() {
    let mut state = State::new();
    assert_eq!(stage_file(&mut state, "/home/u/a.txt", &["a", "b"]), Ok(Staged::Added { duplicates: 0 }));
    let r = stage_file(&mut state, "/home/u/a.txt", &["c", "b"]);
    assert_eq!(r, Ok(Staged::Merged { duplicates: 1, comment_replaced: false }));
    assert_eq!(state.registration_area.len(), 1);
    assert_eq!(sorted(state.registration_area[0].tags.clone()), strings(&["a", "b", "c"]));
}

#[test]
fn staging_new_path_drops_repeated_tags() {
    let mut state = State::new();
    let r = stage_file(&mut state, "/home/u/a.txt", &["x", "x", "y"]);
    assert_eq!(r, Ok(Staged::Added { duplicates: 1 }));
    assert_eq!(state.registration_area[0].tags, strings(&["x", "y"]));
    assert_eq!(state.registration_area[0].hash, None);
}

#[test]
fn staging_directory_is_rejected() {
    let mut state = State::new();
    stage_file(&mut state, "/home/u/a.txt", &["a"]).unwrap();
    assert_eq!(state.stage(Target::Directory, &strings(&["t"]), None, false), Err(StageError::InvalidTarget));
    assert_eq!(state.stage(Target::Symlink, &strings(&["t"]), None, false), Err(StageError::InvalidTarget));
    assert_eq!(state.stage(Target::Unresolved, &strings(&["t"]), None, false), Err(StageError::PathResolution));
    assert_eq!(state.registration_area.len(), 1);
    assert_eq!(state.registration_area[0].path, "/home/u/a.txt");
    assert_eq!(state.registration_area[0].tags, strings(&["a"]));
}

#[test]
fn staging_comment_sets_primary_comment() {
    let mut state = State::new();
    let path = "/home/u/a.txt".to_string();
    state.stage(Target::File(path.clone()), &vec![], Some("first".to_string()), false).unwrap();
    assert_eq!(state.staged_main_comment(&path), Some(&"first".to_string()));
    let r = state.stage(Target::File(path.clone()), &vec![], Some("second".to_string()), false);
    assert_eq!(r, Ok(Staged::Merged { duplicates: 0, comment_replaced: false }));
    assert_eq!(state.staged_main_comment(&path), Some(&"first".to_string()));
    let r = state.stage(Target::File(path.clone()), &vec![], Some("third".to_string()), true);
    assert_eq!(r, Ok(Staged::Merged { duplicates: 0, comment_replaced: true }));
    assert_eq!(state.staged_main_comment(&path), Some(&"third".to_string()));
    assert_eq!(state.staged_main_comment(&"/elsewhere".to_string()), None);
}

#[test]
fn staging_comment_on_entry_without_one_needs_no_consent() {
    let mut state = State::new();
    stage_file(&mut state, "/home/u/a.txt", &[]).unwrap();
    let r = state.stage(Target::File("/home/u/a.txt".to_string()), &vec![], Some("note".to_string()), false);
    assert_eq!(r, Ok(Staged::Merged { duplicates: 0, comment_replaced: true }));
    let key = COMMENT_MAIN.to_string();
    assert_eq!(state.registration_area[0].comment.get(&key), Some(&"note".to_string()));
}

#[test]
fn drop_unknown_name_changes_nothing() {
    let mut state = State::new();
    stage_file(&mut state, "/x/photo.jpg", &[]).unwrap();
    stage_file(&mut state, "/y/notes.txt", &[]).unwrap();
    assert!(!state.drop_staged("missing.png"));
    assert_eq!(state.registration_area.len(), 2);
    assert!(!state.drop_staged("photo"));
    assert_eq!(state.registration_area.len(), 2);
}

#[test]
fn drop_removes_every_entry_with_that_name() {
    let mut state = State::new();
    stage_file(&mut state, "/x/photo.jpg", &[]).unwrap();
    stage_file(&mut state, "/y/notes.txt", &[]).unwrap();
    stage_file(&mut state, "/z/photo.jpg", &[]).unwrap();
    assert!(state.drop_staged("photo.jpg"));
    assert_eq!(state.registration_area.len(), 1);
    assert_eq!(state.registration_area[0].path, "/y/notes.txt");
}

#[test]
fn commit_moves_every_entry_into_storage() {
    let mut state = State::new();
    stage_file(&mut state, "/x/one.txt", &["a"]).unwrap();
    stage_file(&mut state, "/x/two.pdf", &["b"]).unwrap();
    stage_file(&mut state, "/x/three", &["c"]).unwrap();
    let mut persisted = 0;
    while !state.registration_area.is_empty() {
        let pos = state.commit_next(None).unwrap();
        assert_eq!(pos + 1, state.storage.files.len());
        if commit_effects(false, false).persist {
            persisted += 1;
        }
    }
    assert_eq!(persisted, 3);
    assert_eq!(state.storage.files.len(), 3);
    let files = &state.storage.files;
    assert_eq!(files[0].original_filename.as_deref(), Some("three"));
    assert_eq!(files[1].original_filename.as_deref(), Some("two.pdf"));
    assert_eq!(files[2].original_filename.as_deref(), Some("one.txt"));
    assert_eq!(files[0].filename.len(), 36);
    assert!(files[1].filename.ends_with(".pdf"));
    assert!(files[2].filename.ends_with(".txt"));
    assert_eq!(files[2].tags, strings(&["a"]));
    assert_ne!(files[0].filename, files[1].filename);
    assert_ne!(files[1].filename, files[2].filename);
    assert_ne!(files[0].filename, files[2].filename);
    assert_eq!(state.commit_next(None), Err(CommitError::NothingStaged));
}

#[test]
fn commit_with_id_names_and_titles_the_record() {
    let mut state = State::new();
    stage_file(&mut state, "/docs/paper.pdf", &["read"]).unwrap();
    let (path, ext) = state.next_title_source().unwrap();
    assert_eq!(path, "/docs/paper.pdf");
    assert_eq!(ext, "pdf");
    let pos = state.commit_next_with_id("abc123", Some("A Paper".to_string())).unwrap();
    assert_eq!(pos, 0);
    let f = &state.storage.files[0];
    assert_eq!(f.filename, "abc123.pdf");
    assert_eq!(f.original_filename.as_deref(), Some("paper.pdf"));
    let key = COMMENT_TITLE.to_string();
    assert_eq!(f.comments.get(&key), Some(&"A Paper".to_string()));
    assert!(state.registration_area.is_empty());
    assert_eq!(state.next_title_source(), None);
}

#[test]
fn commit_keeps_existing_title() {
    let mut state = State::new();
    stage_file(&mut state, "/docs/paper.pdf", &[]).unwrap();
    state.registration_area[0].comment.insert(COMMENT_TITLE.to_string(), "Mine".to_string());
    assert_eq!(state.next_title_source(), None);
    state.commit_next_with_id("id1", Some("Other".to_string())).unwrap();
    let key = COMMENT_TITLE.to_string();
    assert_eq!(state.storage.files[0].comments.get(&key), Some(&"Mine".to_string()));
}

#[test]
fn commit_of_path_without_final_component_uses_bare_id() {
    let mut state = State::new();
    stage_file(&mut state, "/a/b.d/..", &[]).unwrap();
    assert_eq!(state.commit_next_with_id("k", None), Ok(0));
    assert_eq!(state.storage.files[0].filename, "k");
    assert_eq!(state.storage.files[0].original_filename, None);
}

#[test]
fn commit_refuses_a_name_in_use() {
    let mut state = State::new();
    state.storage.files.push(stored("abc.txt", &[]));
    stage_file(&mut state, "/x/n.txt", &[]).unwrap();
    assert_eq!(state.commit_next_with_id("abc", None), Err(CommitError::NameTaken));
    assert_eq!(state.registration_area.len(), 1);
    assert_eq!(state.storage.files.len(), 1);
    assert_eq!(state.commit_next_with_id("abd", None), Ok(1));
}

#[test]
fn dry_run_has_no_outside_effects() {
    let e = commit_effects(true, false);
    assert!(!e.copy && !e.trash_original && !e.persist);
    let e = commit_effects(true, true);
    assert!(!e.copy && !e.trash_original && !e.persist);
    let e = commit_effects(false, true);
    assert!(e.copy && !e.trash_original && e.persist);
    let e = commit_effects(false, false);
    assert!(e.copy && e.trash_original && e.persist);
}

#[test]
fn prefix_resolution_policy() {
    let storage = Storage { files: vec![stored("abc123.txt", &[]), stored("abc999.txt", &[])] };
    match storage.resolve_prefix("abc") {
        Lookup::Ambiguous(v) => assert_eq!(v, vec![0, 1]),
        other => panic!("expected several matches, got {:?}", other),
    }
    assert!(matches!(storage.resolve_prefix("abc1"), Lookup::Found(0)));
    assert!(matches!(storage.resolve_prefix("zzz"), Lookup::NotFound));
    assert_eq!(storage.find_file_from_prefix("abc9"), vec![1]);
    assert_eq!(storage.find_file_from_prefix(""), vec![0, 1]);
}

#[test]
fn mutable_lookup_edits_the_single_match() {
    let mut storage = Storage {
        files: vec![stored("abc123.txt", &[]), stored("zz.txt", &[]), stored("abc999.txt", &[])],
    };
    assert!(storage.find_file_mut_from_prefix("q").is_empty());
    let single = storage.find_file_mut_from_prefix("abc9");
    assert_eq!(single.len(), 1);
    assert_eq!(single[0].filename, "abc999.txt");
    for f in storage.find_file_mut_from_prefix("abc") {
        f.tags.push("x".to_string());
    }
    assert_eq!(storage.files[0].tags, strings(&["x"]));
    assert!(storage.files[1].tags.is_empty());
    assert_eq!(storage.files[2].tags, strings(&["x"]));
}

#[test]
fn add_tags_through_prefix() {
    let mut storage = Storage { files: vec![stored("abc123.txt", &["a"]), stored("abc999.txt", &[])] };
    let (lookup, dups) = storage.add_tags("abc1", &strings(&["a", "b"]));
    assert!(matches!(lookup, Lookup::Found(0)));
    assert_eq!(dups, 1);
    assert_eq!(sorted(storage.files[0].tags.clone()), strings(&["a", "b"]));
    let (lookup, dups) = storage.add_tags("abc", &strings(&["c"]));
    assert!(matches!(lookup, Lookup::Ambiguous(_)));
    assert_eq!(dups, 0);
    assert!(storage.files[1].tags.is_empty());
}

#[test]
fn set_comment_through_prefix() {
    let mut storage = Storage { files: vec![stored("abc123.txt", &[]), stored("def.txt", &[])] };
    let r = storage.set_comment("de", "desc".to_string(), "hello".to_string());
    assert!(matches!(r, Lookup::Found(1)));
    assert_eq!(storage.files[1].comments.get(&"desc".to_string()), Some(&"hello".to_string()));
    let r = storage.set_comment("q", "desc".to_string(), "x".to_string());
    assert!(matches!(r, Lookup::NotFound));
}

#[test]
fn find_applies_every_predicate() {
    let storage = Storage {
        files: vec![
            stored("1", &["photo"]),
            stored("2", &["photo", "draft"]),
            stored("3", &["draft"]),
            stored("4", &["photo", "final"]),
        ],
    };
    assert_eq!(storage.find_by_tags(&strings(&["photo", "-draft"])), vec![0, 3]);
    assert_eq!(storage.find_by_tags(&strings(&["+photo", "final"])), vec![3]);
    assert_eq!(storage.find_by_tags(&strings(&[])), vec![0, 1, 2, 3]);
    assert_eq!(storage.find_by_tags(&strings(&["-photo"])), vec![2]);
}

#[test]
fn merge_tags_counts_duplicates() {
    let mut tags = strings(&["a", "b"]);
    assert_eq!(merge_tags(&mut tags, &strings(&["b", "c", "c"])), 2);
    assert_eq!(tags, strings(&["a", "b", "c"]));
    assert!(contains_tag(&tags, &"c".to_string()));
    assert!(!contains_tag(&tags, &"C".to_string()));
}

#[test]
fn comments_insert_replaces() {
    let mut c = Comments::new();
    c.insert("t".to_string(), "1".to_string());
    c.insert("t".to_string(), "2".to_string());
    assert_eq!(c.entries.len(), 1);
    assert_eq!(c.get(&"t".to_string()), Some(&"2".to_string()));
    assert!(!c.contains_key(&"u".to_string()));
}

#[test]
fn storage_names() {
    assert_eq!(storage_name("id", "txt"), "id.txt");
    assert_eq!(storage_name("id", ""), "id");
    let name = choose_filename("png");
    assert_eq!(name.len(), 40);
    assert!(name.ends_with(".png"));
    assert_eq!(name.as_bytes()[8], b'-');
    assert_ne!(choose_filename(""), choose_filename(""));
}

#[test]
fn path_components() {
    assert_eq!(extension_or_empty("/a/b.tar.gz"), "gz");
    assert_eq!(extension_or_empty("/a/b"), "");
    assert_eq!(extension_or_empty("/a/b.d/.."), "");
    assert_eq!(extension_or_empty("/"), "");
    assert_eq!(expand_path("/plain/path"), "/plain/path");
    assert_eq!(expand_path("~user/x"), "~user/x");
    let home = expand_path("~/notes");
    assert!(home.ends_with("/notes"));
    assert!(!home.starts_with('~'));
}

#[test]
fn original_filename_is_the_last_component() {
    let mut state = State::new();
    stage_file(&mut state, "/a/b/report.txt", &[]).unwrap();
    state.commit_next_with_id("k", None).unwrap();
    assert_eq!(state.storage.files[0].original_filename.as_deref(), Some("report.txt"));
    assert_eq!(state.storage.files[0].filename, "k.txt");
}

#[test]
fn config_locations_resolve_against_config_dir() {
    assert_eq!(resolve_expanded("/etc/tagg/config.toml", "store"), Ok("/etc/tagg/store".to_string()));
    assert_eq!(resolve_expanded("/etc/tagg/config.toml", "/srv/store"), Ok("/srv/store".to_string()));
    assert_eq!(resolve_expanded("config.toml", "store"), Ok("store".to_string()));
    assert_eq!(resolve_expanded("", "store"), Err(ConfigError::NoParentForRelative));
    assert_eq!(resolve_expanded("", "/srv/store"), Ok("/srv/store".to_string()));
    assert_eq!(resolve_config_path("/etc/c.toml", "data"), Ok("/etc/data".to_string()));
    let config = Config {
        storage_path: "files".to_string(),
        state_path: None,
        hash_added_files: false,
        registration_delay_limit: 0,
    };
    assert_eq!(config.storage_path("/home/u/.config/tagg/config.toml"), Ok("/home/u/.config/tagg/files".to_string()));
}

#[test]
fn staged_fingerprint_check() {
    let mut f = AddedFile { path: "/a".to_string(), hash: None, tags: vec![], comment: Comments::new() };
    assert_eq!(f.exists_hash_correct(false, 1), None);
    assert_eq!(f.exists_hash_correct(true, 1), Some(true));
    f.hash = Some(7);
    assert_eq!(f.exists_hash_correct(true, 7), Some(true));
    assert_eq!(f.exists_hash_correct(true, 8), Some(false));
}

#[test]
fn pdf_title_rules() {
    assert!(is_pdf_title_bad(None));
    assert!(is_pdf_title_bad(Some("This page intentionally left blank")));
    assert!(is_pdf_title_bad(Some("This page intentionally left blank.")));
    assert!(is_pdf_title_bad(Some("abcd")));
    assert!(!is_pdf_title_bad(Some("abcde")));
    assert!(is_pdf_title_bad(Some(&"x".repeat(120))));
    assert!(!is_pdf_title_bad(Some(&"x".repeat(119))));
    assert_eq!(fixup_pdf_title("  \u{FB01}rst \u{FB02}ow\u{25A0} K\u{A8}onig ".to_string()), "first flow K\u{F6}nig");
}

#[test]
fn pdf_title_steps() {
    assert_eq!(first_title_step("pdf"), TitleStep::ReadPage(1));
    assert_eq!(first_title_step("txt"), TitleStep::Done(None));
    assert_eq!(next_title_step(1, Some("short".to_string())), TitleStep::Done(Some("short".to_string())));
    assert_eq!(next_title_step(1, None), TitleStep::ReadPage(2));
    assert_eq!(next_title_step(2, Some("abc".to_string())), TitleStep::ReadPage(3));
    assert_eq!(next_title_step(3, None), TitleStep::Done(None));
    assert_eq!(next_title_step(3, Some(" A Title ".to_string())), TitleStep::Done(Some("A Title".to_string())));
}
