use truck_facto_rs::git::{
    assign_recent_names, commits_from_log, find_unique_authors, is_similar, merge_alias_authors,
    merge_author_cluster, parse_log_entry, parse_name_status_line, populate_files_from_log,
    reduce_overlapping_strings, AuthorInfo, ChangeType, CommitFileInfo, CommitInfo, CommitMap,
};

fn author(name: &str, email: &str) -> AuthorInfo {
    AuthorInfo { name: name.to_string(), email: email.to_string() }
}

fn commit(hash: &str, a: AuthorInfo, date: u64, files: Vec<CommitFileInfo>) -> CommitInfo {
    CommitInfo {
        hash: hash.to_string(),
        author: a.clone(),
        author_date: date,
        committer: a,
        committer_date: date,
        message: String::new(),
        files,
    }
}

fn change(name: &str, change_type: ChangeType) -> CommitFileInfo {
    CommitFileInfo { file_name: name.to_string(), change_type, recent_file_name: None }
}

#[test]
fn parse_log_entry_reads_all_fields() {
    let line = "\"abc123-;-John Doe-;-John@Example.COM-;-1700000000-;-Jane Roe-;-JANE@y.org-;-1700000100-;-fix-the-bug\"";
    let c = parse_log_entry(line).expect("eight fields");
    assert_eq!(c.hash, "abc123");
    assert_eq!(c.author, author("john doe", "john@example.com"));
    assert_eq!(c.author_date, 1700000000);
    assert_eq!(c.committer, author("jane roe", "jane@y.org"));
    assert_eq!(c.committer_date, 1700000100);
    assert_eq!(c.message, "fix-the-bug");
    assert!(c.files.is_empty());
}

#[test]
fn parse_log_entry_needs_eight_fields() {
    assert!(parse_log_entry("\"a-;-b-;-c\"").is_none());
    assert!(parse_log_entry("").is_none());
    assert!(parse_log_entry("a-;-b-;-c-;-1-;-d-;-e-;-2-;-f-;-g").is_none());
}

#[test]
fn parse_log_entry_bad_dates_are_zero() {
    let c = parse_log_entry("h-;-n-;-e-;-12x-;-n-;-e-;-+7-;-m").unwrap();
    assert_eq!(c.author_date, 0);
    assert_eq!(c.committer_date, 7);
    let c = parse_log_entry("h-;-n-;-e-;-18446744073709551616-;-n-;-e-;-18446744073709551615-;-m").unwrap();
    assert_eq!(c.author_date, 0);
    assert_eq!(c.committer_date, u64::MAX);
    let c = parse_log_entry("h-;-n-;-e-;--1-;-n-;-e-;-+-;-m").unwrap();
    assert_eq!(c.author_date, 0);
    assert_eq!(c.committer_date, 0);
}

#[test]
fn parse_name_status_lines() {
    let f = parse_name_status_line("A\tsrc/a.rs").unwrap();
    assert_eq!(f.file_name, "src/a.rs");
    assert_eq!(f.change_type, ChangeType::Added);
    assert_eq!(f.recent_file_name, None);
    assert_eq!(parse_name_status_line("M  x.rs").unwrap().change_type, ChangeType::Modified);
    assert_eq!(parse_name_status_line("D\tx.rs").unwrap().change_type, ChangeType::Deleted);
    let r = parse_name_status_line("R100\told.rs\tnew.rs").unwrap();
    assert_eq!(r.change_type, ChangeType::Renamed("old.rs".to_string()));
    assert_eq!(r.file_name, "new.rs");
    assert!(parse_name_status_line("R100\tonly.rs").is_none());
    assert!(parse_name_status_line("X\tfoo").is_none());
    assert!(parse_name_status_line("A").is_none());
    assert!(parse_name_status_line("").is_none());
}

#[test]
fn commit_log_later_duplicates_win() {
    let log = "\"h1-;-a-;-a@x-;-1-;-a-;-a@x-;-1-;-first\"\n\"h2-;-b-;-b@x-;-2-;-b-;-b@x-;-2-;-second\"\nnot a commit\n\"h1-;-c-;-c@x-;-3-;-c-;-c@x-;-3-;-again\"";
    let m = commits_from_log(log);
    assert_eq!(m.len(), 2);
    let h1 = m.get(&"h1".to_string()).unwrap();
    assert_eq!(h1.message, "again");
    assert_eq!(m.values()[0].hash, "h1");
    assert_eq!(m.values()[1].hash, "h2");
    assert!(m.get(&"h3".to_string()).is_none());
}

#[test]
fn commit_map_insert_then_get() {
    let mut m = CommitMap::new();
    m.insert(commit("a", author("x", "x@x"), 1, vec![]));
    m.insert(commit("b", author("y", "y@y"), 2, vec![]));
    m.insert(commit("a", author("z", "z@z"), 3, vec![]));
    assert_eq!(m.len(), 2);
    assert_eq!(m.get(&"a".to_string()).unwrap().author, author("z", "z@z"));
    assert_eq!(m.get(&"b".to_string()).unwrap().committer_date, 2);
}

#[test]
fn name_status_log_fills_commits() {
    let mut m = CommitMap::new();
    m.insert(commit("h1", author("a", "a@x"), 1, vec![]));
    m.insert(commit("h2", author("b", "b@x"), 2, vec![]));
    let log = "commit h2\nM\tsrc/lib.rs\nA\tsrc/new.rs\r\n\ncommit h9\nM\tlost.rs\ncommit h1\nR090\ta.rs\tb.rs\nbogus\n";
    populate_files_from_log(log, &mut m);
    let h2 = m.get(&"h2".to_string()).unwrap();
    assert_eq!(h2.files.len(), 2);
    assert_eq!(h2.files[0].file_name, "src/lib.rs");
    assert_eq!(h2.files[1].file_name, "src/new.rs");
    assert_eq!(h2.files[1].change_type, ChangeType::Added);
    let h1 = m.get(&"h1".to_string()).unwrap();
    assert_eq!(h1.files.len(), 1);
    assert_eq!(h1.files[0].change_type, ChangeType::Renamed("a.rs".to_string()));
    assert_eq!(h1.files[0].file_name, "b.rs");
}

#[test]
fn main_author_falls_back_to_committer() {
    let mut c = commit("h", author("", ""), 1, vec![]);
    c.committer = author("", "c@x");
    assert_eq!(c.get_main_author(), Some(&author("", "c@x")));
    c.committer = author("", "");
    assert_eq!(c.get_main_author(), None);
    c.author = author("a", "");
    assert_eq!(c.get_main_author(), Some(&author("a", "")));
}

#[test]
fn renames_are_traced_back() {
    let mut m = CommitMap::new();
    // oldest: old.rs is added and another file changed
    m.insert(commit("c1", author("a", "a@x"), 10, vec![change("old.rs", ChangeType::Added), change("gone.rs", ChangeType::Modified)]));
    // then old.rs is modified
    m.insert(commit("c2", author("b", "b@x"), 20, vec![change("old.rs", ChangeType::Modified)]));
    // newest: old.rs becomes new.rs
    m.insert(commit("c3", author("c", "c@x"), 30, vec![change("new.rs", ChangeType::Renamed("old.rs".to_string()))]));
    assign_recent_names(&["new.rs".to_string(), "other.rs".to_string()], &mut m);
    let c3 = m.get(&"c3".to_string()).unwrap();
    assert_eq!(c3.files[0].recent_file_name.as_deref(), Some("new.rs"));
    let c2 = m.get(&"c2".to_string()).unwrap();
    assert_eq!(c2.files[0].recent_file_name.as_deref(), Some("new.rs"));
    let c1 = m.get(&"c1".to_string()).unwrap();
    assert_eq!(c1.files[0].recent_file_name.as_deref(), Some("new.rs"));
    assert_eq!(c1.files[1].recent_file_name, None);
}

#[test]
fn an_addition_ends_the_trace() {
    let mut m = CommitMap::new();
    m.insert(commit("c1", author("a", "a@x"), 10, vec![change("f.rs", ChangeType::Modified)]));
    m.insert(commit("c2", author("a", "a@x"), 20, vec![change("f.rs", ChangeType::Added)]));
    assign_recent_names(&["f.rs".to_string()], &mut m);
    assert_eq!(m.get(&"c2".to_string()).unwrap().files[0].recent_file_name.as_deref(), Some("f.rs"));
    assert_eq!(m.get(&"c1".to_string()).unwrap().files[0].recent_file_name, None);
}

#[test]
fn overlapping_strings_are_reduced() {
    let r = reduce_overlapping_strings(&vec![
        "john".to_string(),
        "john doe".to_string(),
        "".to_string(),
        "jane".to_string(),
        "jane".to_string(),
        "doe".to_string(),
    ]);
    assert_eq!(r, vec!["jane".to_string(), "john doe".to_string()]);
    assert!(reduce_overlapping_strings(&vec![]).is_empty());
    assert!(reduce_overlapping_strings(&vec!["".to_string()]).is_empty());
}

#[test]
fn clusters_merge_names_and_emails() {
    let a = author("john doe", "john@x.com");
    let b = author("john", "jd@y.com");
    let merged = merge_author_cluster(&[&a, &b]);
    assert_eq!(merged.name, "john doe");
    assert_eq!(merged.email, "jd@y.com && john@x.com");
}

#[test]
fn similarity_rules() {
    assert!(is_similar(&author("john", "a@x"), &author("john", "b@y")));
    assert!(is_similar(&author("x", "same@x"), &author("y", "same@x")));
    assert!(is_similar(&author("johnn", "1"), &author("john", "2")));
    assert!(!is_similar(&author("jo", "1"), &author("ja", "2")));
    assert!(!is_similar(&author("", ""), &author("", "")));
    assert!(!is_similar(&author("alice", "a@x"), &author("bob", "b@y")));
    assert!(is_similar(&author("bob", "a@x.org"), &author("rob", "zz")));
}

#[test]
fn aliases_are_merged() {
    let mut m = CommitMap::new();
    m.insert(commit("c1", author("john doe", "john@x.com"), 1, vec![]));
    m.insert(commit("c2", author("john doe", "jd@y.com"), 2, vec![]));
    m.insert(commit("c3", author("alice", "alice@z.org"), 3, vec![]));
    m.insert(commit("c4", author("alice", "alice@z.org"), 4, vec![]));
    let (unique, mergers, persons) = find_unique_authors(&m);
    assert_eq!(unique.len(), 3);
    assert_eq!((mergers, persons), (1, 2));
    let (mergers, persons) = merge_alias_authors(&mut m);
    assert_eq!((mergers, persons), (1, 2));
    let john = author("john doe", "jd@y.com && john@x.com");
    assert_eq!(m.get(&"c1".to_string()).unwrap().author, john);
    assert_eq!(m.get(&"c2".to_string()).unwrap().author, john);
    assert_eq!(m.get(&"c3".to_string()).unwrap().author, author("alice", "alice@z.org"));
}

#[test]
fn committer_credit_replaces_the_author_field() {
    let mut m = CommitMap::new();
    let mut c = commit("c1", author("", ""), 1, vec![]);
    c.committer = author("bob", "bob@x");
    m.insert(c);
    let (mergers, persons) = merge_alias_authors(&mut m);
    assert_eq!((mergers, persons), (0, 1));
    assert_eq!(m.get(&"c1".to_string()).unwrap().author, author("bob", "bob@x"));
}
