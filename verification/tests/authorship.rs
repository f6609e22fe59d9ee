use truck_facto_rs::doa::{prepare_for_doa, Delivery, DoaFile};
use truck_facto_rs::file::{files_from_listing, mark_vendored_files, File};
use truck_facto_rs::gini::sorted_file_counts;
use truck_facto_rs::git::{AuthorInfo, ChangeType, CommitFileInfo, CommitInfo, CommitMap, Repo};
use truck_facto_rs::tf::{calculate_truck_factor, exclude_largest, get_authors_map, get_coverage, included_size};

fn author(name: &str) -> AuthorInfo {
    AuthorInfo { name: name.to_string(), email: format!("{}@x", name) }
}

fn traced(name: &str, change_type: ChangeType) -> CommitFileInfo {
    CommitFileInfo { file_name: name.to_string(), change_type, recent_file_name: Some(name.to_string()) }
}

fn commit(hash: &str, a: AuthorInfo, date: u64, files: Vec<CommitFileInfo>) -> CommitInfo {
    CommitInfo {
        hash: hash.to_string(),
        author: a.clone(),
        author_date: date,
        committer: a,
        committer_date: date,
        message: String::new(),
        files,
    }
}

#[test]
fn doa_file_records_creators_and_deliveries() {
    let mut f = DoaFile::new("a.rs".to_string());
    f.insert_added(author("ann"), 5);
    f.insert_delivery(author("bob"), Delivery { commit: "c2".to_string(), timestamp: 6 });
    f.insert_delivery(author("ann"), Delivery { commit: "c3".to_string(), timestamp: 7 });
    f.insert_added(author("bob"), 8);
    assert_eq!(f.authorships.len(), 2);
    assert_eq!(f.authorships[0].author, author("ann"));
    assert!(f.authorships[0].added);
    assert_eq!(f.authorships[0].added_timestamp, Some(5));
    assert_eq!(f.authorships[0].deliveries.len(), 1);
    assert_eq!(f.authorships[1].author, author("bob"));
    assert!(f.authorships[1].added);
    assert_eq!(f.authorships[1].added_timestamp, None);
    assert_eq!(f.deliveries.len(), 2);
    let copy = f.duplicate();
    assert_eq!(copy.name, f.name);
    assert_eq!(copy.authorships, f.authorships);
    assert_eq!(copy.deliveries, f.deliveries);
}

#[test]
fn prepare_for_doa_gathers_changes() {
    let mut m = CommitMap::new();
    m.insert(commit("c1", author("ann"), 1, vec![traced("b.rs", ChangeType::Added), traced("a.rs", ChangeType::Added)]));
    m.insert(commit("c2", author("bob"), 2, vec![traced("a.rs", ChangeType::Modified), traced("gone.rs", ChangeType::Modified)]));
    m.insert(commit("c3", author("bob"), 3, vec![traced("a.rs", ChangeType::Deleted), traced("b.rs", ChangeType::Renamed("x.rs".to_string()))]));
    let mut nameless = commit("c4", AuthorInfo { name: String::new(), email: String::new() }, 4, vec![traced("a.rs", ChangeType::Modified)]);
    nameless.committer = AuthorInfo { name: String::new(), email: String::new() };
    m.insert(nameless);
    let docs = prepare_for_doa(&["b.rs".to_string(), "a.rs".to_string(), "a.rs".to_string()], &m);
    assert_eq!(docs.len(), 2);
    assert_eq!(docs[0].name, "a.rs");
    assert_eq!(docs[1].name, "b.rs");
    let a = &docs[0];
    assert_eq!(a.authorships.len(), 2);
    assert!(a.authorships[0].added);
    assert_eq!(a.authorships[1].author, author("bob"));
    assert!(!a.authorships[1].added);
    assert_eq!(a.deliveries, vec![Delivery { commit: "c2".to_string(), timestamp: 2 }]);
    let b = &docs[1];
    assert_eq!(b.authorships.len(), 2);
    assert_eq!(b.deliveries.len(), 1);
}

fn doa(name: &str) -> DoaFile {
    DoaFile::new(name.to_string())
}

#[test]
fn truck_factor_of_one_dominant_author() {
    let files = vec![doa("a"), doa("b"), doa("c"), doa("d")];
    let ann = author("ann");
    let bob = author("bob");
    let authors = vec![vec![ann.clone()], vec![ann.clone()], vec![ann.clone()], vec![bob.clone()]];
    let (tf, map) = calculate_truck_factor(&files, &authors);
    assert_eq!(tf, 1);
    assert_eq!(map.len(), 2);
    assert_eq!(map[0].0, ann);
    assert!(!map[0].1.included);
    assert_eq!(map[0].1.files.len(), 3);
    assert!(map[1].1.included);
}

#[test]
fn truck_factor_counts_past_exactly_half() {
    let files = vec![doa("a"), doa("b"), doa("c"), doa("d")];
    let ann = author("ann");
    let bob = author("bob");
    let authors = vec![vec![ann.clone()], vec![ann.clone()], vec![ann.clone(), bob.clone()], vec![bob.clone()]];
    let (tf, map) = calculate_truck_factor(&files, &authors);
    assert_eq!(tf, 2);
    assert_eq!(map.len(), 2);
    assert!(!map[0].1.included);
    assert!(!map[1].1.included);
}

#[test]
fn truck_factor_when_everyone_leaves() {
    let files = vec![doa("a"), doa("b")];
    let authors = vec![vec![author("ann")], vec![author("ann")]];
    let (tf, map) = calculate_truck_factor(&files, &authors);
    assert_eq!(tf, 1);
    assert!(!map[0].1.included);
    let (tf, map) = calculate_truck_factor(&[], &vec![]);
    assert_eq!(tf, 0);
    assert!(map.is_empty());
}

#[test]
fn truck_factor_of_a_sole_author() {
    let files = vec![doa("a.rs")];
    let alice = AuthorInfo { name: "alice".to_string(), email: "a@x.org".to_string() };
    let (tf, map) = calculate_truck_factor(&files, &vec![vec![alice.clone()]]);
    assert_eq!(tf, 1);
    assert_eq!(map.len(), 1);
    assert_eq!(map[0].0, alice);
    let (tf, _) = calculate_truck_factor(&files, &vec![vec![]]);
    assert_eq!(tf, 0);
}

#[test]
fn truck_factor_two() {
    let files = vec![doa("a"), doa("b"), doa("c"), doa("d"), doa("e")];
    let authors = vec![
        vec![author("ann")],
        vec![author("ann")],
        vec![author("bob")],
        vec![author("bob")],
        vec![author("cid")],
    ];
    let (tf, _) = calculate_truck_factor(&files, &authors);
    assert_eq!(tf, 2);
}

#[test]
fn coverage_and_exclusion() {
    let files = vec![doa("a"), doa("b"), doa("c")];
    let authors = vec![vec![author("ann"), author("bob")], vec![author("bob")], vec![author("cid")]];
    let mut m = get_authors_map(&files, &authors);
    assert_eq!(m.len(), 3);
    assert_eq!(included_size(&m), 3);
    assert_eq!(get_coverage(&m), 3);
    exclude_largest(&mut m);
    assert!(!m[1].1.included);
    assert_eq!(included_size(&m), 2);
    assert_eq!(get_coverage(&m), 2);
    exclude_largest(&mut m);
    assert!(!m[2].1.included);
    exclude_largest(&mut m);
    exclude_largest(&mut m);
    assert_eq!(included_size(&m), 0);
    assert_eq!(get_coverage(&m), 0);
}

#[test]
fn file_counts_ascend() {
    let files = vec![doa("a"), doa("b"), doa("c")];
    let authors = vec![vec![author("ann"), author("bob")], vec![author("bob")], vec![author("cid"), author("bob")]];
    let m = get_authors_map(&files, &authors);
    assert_eq!(sorted_file_counts(&m), vec![1, 1, 3]);
    assert!(sorted_file_counts(&vec![]).is_empty());
}

#[test]
fn listing_becomes_files() {
    let files = files_from_listing("src/main.rs\r\nnode_modules/react/index.js\n\nREADME.md");
    assert_eq!(files.len(), 4);
    assert_eq!(files[0].name, "src/main.rs");
    assert_eq!(files[2].name, "");
    assert!(files.iter().all(|f| !f.filtered));
    assert!(files_from_listing("").is_empty());
    let f = File::new("x".to_string());
    assert_eq!(f.name, "x");
    assert!(!f.filtered);
}

#[test]
fn vendored_files_are_marked() {
    let mut files = vec![
        File::new("node_modules/react/index.js".to_string()),
        File::new("src/main.rs".to_string()),
        File::new("vendor/bundle/gems/rails.rb".to_string()),
    ];
    mark_vendored_files(&mut files, &Repo { path: "." });
    assert!(files[0].filtered);
    assert!(!files[1].filtered);
    assert!(files[2].filtered);
}
