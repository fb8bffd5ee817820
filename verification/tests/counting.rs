use glc::count::count_file_lines;
use glc::count::count_repo_lines;
use glc::count::file_contribution;
use glc::count::try_count_repo_lines;
use glc::counter::merge_counters;
use glc::counter::Counter;
use glc::text::count_lines;
use glc::text::extension_of;
use glc::text::repo_dir_name;

fn files(list: &[(&str, Option<&str>)]) -> Vec<(String, Option<String>)> {
    list.iter()
        .map(|(n, c)| (n.to_string(), c.map(|s| s.to_string())))
        .collect()
}

#[test]
fn three_files_two_extensions() {
    let fs = files(&[
        ("a.txt", Some("one\ntwo\nthree\n")),
        ("b.txt", Some("one\ntwo")),
        ("c.md", Some("one\n")),
    ]);
    let c = count_repo_lines(&fs);
    assert_eq!(
        c.entries,
        vec![("md".to_string(), 1), ("txt".to_string(), 5)]
    );
}

#[test]
fn unreadable_file_yields_empty_mapping() {
    let fs = files(&[("blob.bin", None)]);
    let c = count_repo_lines(&fs);
    assert!(c.entries.is_empty());
}

#[test]
fn no_extension_is_excluded() {
    let c = count_file_lines("README", Some("one\ntwo\nthree"));
    assert!(c.entries.is_empty());

    let fs = files(&[("README", Some("one\ntwo\nthree")), ("a.rs", Some("one\n"))]);
    let all = count_repo_lines(&fs);
    assert_eq!(all.entries, vec![("rs".to_string(), 1)]);
    let total: usize = all.entries.iter().map(|e| e.1).sum();
    assert_eq!(total, 1);
}

#[test]
fn nested_directories_aggregate() {
    let parent = files(&[("top.rs", Some("a\nb\n"))]);
    let child = files(&[("deep.rs", Some("c\n")), ("deep.md", Some("d\ne\n"))]);
    let merged = merge_counters(count_repo_lines(&parent), count_repo_lines(&child));

    let mut combined = parent.clone();
    combined.extend(child.clone());
    let whole = count_repo_lines(&combined);

    assert_eq!(merged.entries, whole.entries);
    assert_eq!(
        whole.entries,
        vec![("md".to_string(), 2), ("rs".to_string(), 3)]
    );
}

#[test]
fn same_tree_counts_identically() {
    let fs = files(&[
        ("a.txt", Some("one\ntwo\n")),
        ("sub.rs", Some("fn main() {}\n")),
        ("README", Some("docs\n")),
    ]);
    let first = count_repo_lines(&fs);
    let second = count_repo_lines(&fs);
    assert_eq!(first.entries, second.entries);
}

#[test]
fn merge_is_commutative() {
    let mut a = Counter::new();
    a.add_count("rs", 4);
    a.add_count("md", 1);
    let mut b = Counter::new();
    b.add_count("rs", 2);
    b.add_count("toml", 7);

    let ab = merge_counters(a, b);
    let mut a2 = Counter::new();
    a2.add_count("rs", 4);
    a2.add_count("md", 1);
    let mut b2 = Counter::new();
    b2.add_count("rs", 2);
    b2.add_count("toml", 7);
    let ba = merge_counters(b2, a2);

    assert_eq!(ab.entries, ba.entries);
    assert_eq!(
        ab.entries,
        vec![
            ("md".to_string(), 1),
            ("rs".to_string(), 6),
            ("toml".to_string(), 7),
        ]
    );
}

#[test]
fn merge_sums_shared_keys() {
    let mut a = Counter::new();
    a.add_count("c", 10);
    let mut b = Counter::new();
    b.add_count("c", 5);
    b.add_count("h", 2);
    let m = merge_counters(a, b);
    assert_eq!(m.get("c"), Some(15));
    assert_eq!(m.get("h"), Some(2));
    assert_eq!(m.get("rs"), None);
}

#[test]
fn totals_add_up() {
    let fs = files(&[
        ("a.txt", Some("1\n2\n3\n")),
        ("b.md", Some("1\n2")),
        ("script", Some("1\n1\n1\n1\n")),
        ("c.bin", None),
    ]);
    let c = count_repo_lines(&fs);
    let mapped: usize = c.entries.iter().map(|e| e.1).sum();
    let contributed: usize = fs
        .iter()
        .map(|(n, t)| file_contribution(n, t.as_deref()))
        .sum();
    assert_eq!(mapped, 5);
    assert_eq!(contributed, 5);
}

#[test]
fn try_count_matches_count() {
    let fs = files(&[("a.txt", Some("x\ny\n"))]);
    let c = try_count_repo_lines(&fs).unwrap();
    assert_eq!(c.entries, vec![("txt".to_string(), 2)]);
}

#[test]
fn line_counting_edges() {
    assert_eq!(count_lines(""), 0);
    assert_eq!(count_lines("one line"), 1);
    assert_eq!(count_lines("ends\n"), 1);
    assert_eq!(count_lines("a\nb"), 2);
    assert_eq!(count_lines("a\nb\n"), 2);
    assert_eq!(count_lines("\n\n"), 2);
    assert_eq!(count_lines("a\r\nb\r\n"), 2);
    assert_eq!(count_lines("\r"), 1);
}

#[test]
fn empty_file_with_extension_is_listed() {
    let c = count_file_lines("empty.rs", Some(""));
    assert_eq!(c.entries, vec![("rs".to_string(), 0)]);
}

#[test]
fn extension_extraction() {
    assert_eq!(extension_of("main.rs"), Some("rs".to_string()));
    assert_eq!(extension_of("archive.tar.gz"), Some("gz".to_string()));
    assert_eq!(extension_of("trailing."), Some(String::new()));
    assert_eq!(extension_of(".gitignore"), None);
    assert_eq!(extension_of("README"), None);
    assert_eq!(extension_of(""), None);
    assert_eq!(extension_of("."), None);
}

#[test]
fn counter_stays_sorted() {
    let mut c = Counter::new();
    c.add_count("zig", 1);
    c.add_count("ada", 2);
    c.add_count("ml", 3);
    c.add_count("ada", 1);
    assert_eq!(
        c.entries,
        vec![
            ("ada".to_string(), 3),
            ("ml".to_string(), 3),
            ("zig".to_string(), 1),
        ]
    );
}

#[test]
fn repo_identifier_tail() {
    assert_eq!(repo_dir_name("owner/repo"), "repo".to_string());
    assert_eq!(repo_dir_name("repo"), "repo".to_string());
    assert_eq!(repo_dir_name("a/b/c"), "c".to_string());
    assert_eq!(repo_dir_name("dangling/"), String::new());
}
