use naming::api::{branch_url, tree_request_url, tree_url_of, File, ShaResponse, ShaResponseCommit, ShaResponseTree, ShaResponseTreeData};
use naming::classify::Naming;
use naming::count::{get_naming_count, restrict_to, Info, LanguageCount};
use naming::paths::{after_last, before_first};

fn blob(path: &str) -> File {
    File {
        path: path.to_string(),
        mode: "100644".to_string(),
        entry_type: "blob".to_string(),
        sha: "0000000000000000000000000000000000000000".to_string(),
        url: "https://api.github.com/unused".to_string(),
        size: Some(1),
    }
}

fn dir(path: &str) -> File {
    File {
        path: path.to_string(),
        mode: "040000".to_string(),
        entry_type: "tree".to_string(),
        sha: "0000000000000000000000000000000000000000".to_string(),
        url: "https://api.github.com/unused".to_string(),
        size: None,
    }
}

const ALL_STYLES: [Naming; 7] = [
    Naming::Pascal,
    Naming::Camel,
    Naming::Snake,
    Naming::Kebab,
    Naming::Lower,
    Naming::Upper,
    Naming::Unknown,
];

fn assert_tables_equal(a: &Info, b: &Info, keys: &[&str]) {
    for key in keys {
        assert_eq!(a.has_key(key), b.has_key(key));
        for style in ALL_STYLES {
            assert_eq!(a.get_count(key, style), b.get_count(key, style));
        }
    }
}

#[test]
fn test_end_to_end_table() {
    let tree = vec![blob("a/Foo.rs"), blob("b/foo_bar.rs"), dir("c")];
    let table = get_naming_count(&tree);
    // Single-word "Foo" classifies Unknown, not Pascal; "c" is a directory.
    assert_eq!(table.num_buckets(), 1);
    assert!(table.has_key("rs"));
    assert_eq!(table.get_count("rs", Naming::Unknown), 1);
    assert_eq!(table.get_count("rs", Naming::Snake), 1);
    assert_eq!(table.get_count("rs", Naming::Pascal), 0);
    assert_eq!(table.get_count("rs", Naming::Camel), 0);
    assert_eq!(table.get_count("rs", Naming::Kebab), 0);
    assert_eq!(table.get_count("rs", Naming::Lower), 0);
    assert_eq!(table.get_count("rs", Naming::Upper), 0);
}

#[test]
fn test_extension_bucket_rule() {
    // "src/archive.tar.gz": name "archive" (Lower), bucket "gz".
    // "Makefile": no dot, so name and bucket are both the whole name.
    let tree = vec![blob("src/archive.tar.gz"), blob("Makefile")];
    let table = get_naming_count(&tree);
    assert_eq!(table.num_buckets(), 2);
    assert_eq!(table.get_count("gz", Naming::Lower), 1);
    assert!(!table.has_key("tar"));
    assert!(!table.has_key("archive.tar.gz"));
    assert_eq!(table.get_count("Makefile", Naming::Unknown), 1);
}

#[test]
fn test_dotfile_skipped() {
    // The name before the first dot is empty, so nothing is counted.
    let tree = vec![blob(".gitignore"), blob("a/.hidden.rs")];
    let table = get_naming_count(&tree);
    assert_eq!(table.num_buckets(), 0);
    assert!(!table.has_key("gitignore"));
    assert!(!table.has_key("rs"));
}

#[test]
fn test_non_blob_entries_never_counted() {
    // Directory and submodule paths never count, however file-like.
    let tree = vec![dir("src/lib.rs"), dir("foo_bar.go")];
    let table = get_naming_count(&tree);
    assert_eq!(table.num_buckets(), 0);
    let mut submodule = dir("vendor/some_lib.rs");
    submodule.entry_type = "commit".to_string();
    let table = get_naming_count(&vec![submodule]);
    assert_eq!(table.num_buckets(), 0);
}

#[test]
fn test_aggregation_idempotent() {
    let tree = vec![
        blob("a/Foo.rs"),
        blob("b/foo_bar.rs"),
        blob("c/fooBar.go"),
        blob("d/kebab-name.go"),
        blob("Makefile"),
        dir("e"),
    ];
    let first = get_naming_count(&tree);
    let second = get_naming_count(&tree);
    assert_tables_equal(&first, &second, &["rs", "go", "Makefile", "md"]);
    assert_eq!(first.num_buckets(), second.num_buckets());
}

#[test]
fn test_restrict_to_keeps_named_keys() {
    let tree = vec![
        blob("a/Foo.rs"),
        blob("b/foo_bar.rs"),
        blob("c/fooBar.go"),
        blob("d/notes.txt"),
    ];
    let table = get_naming_count(&tree);
    let keys = vec!["rs".to_string(), "go".to_string()];
    let filtered = restrict_to(&table, &keys);
    assert_eq!(filtered.num_buckets(), 2);
    assert!(filtered.has_key("rs"));
    assert!(filtered.has_key("go"));
    assert!(!filtered.has_key("txt"));
    // Retained keys' counts are unchanged.
    for style in ALL_STYLES {
        assert_eq!(filtered.get_count("rs", style), table.get_count("rs", style));
        assert_eq!(filtered.get_count("go", style), table.get_count("go", style));
        assert_eq!(filtered.get_count("txt", style), 0);
    }
}

#[test]
fn test_path_decomposition() {
    assert_eq!(after_last("a/b/c.rs", '/'), "c.rs");
    assert_eq!(after_last("plain", '/'), "plain");
    assert_eq!(after_last("trailing/", '/'), "");
    assert_eq!(before_first("archive.tar.gz", '.'), "archive");
    assert_eq!(after_last("archive.tar.gz", '.'), "gz");
    assert_eq!(before_first("nodot", '.'), "nodot");
    assert_eq!(after_last("nodot", '.'), "nodot");
    assert_eq!(before_first(".gitignore", '.'), "");
}

#[test]
fn test_language_count_cells() {
    let mut row = LanguageCount::new();
    for style in ALL_STYLES {
        assert_eq!(row.get(style), 0);
    }
    row.bump(Naming::Snake);
    row.bump(Naming::Snake);
    row.bump(Naming::Upper);
    assert_eq!(row.get(Naming::Snake), 2);
    assert_eq!(row.get(Naming::Upper), 1);
    assert_eq!(row.get(Naming::Pascal), 0);
}

#[test]
fn test_request_urls() {
    assert_eq!(
        branch_url("octocat/hello"),
        "https://api.github.com/repos/octocat/hello/branches/master"
    );
    assert_eq!(
        tree_request_url("https://api.github.com/repos/octocat/hello/git/trees/abc"),
        "https://api.github.com/repos/octocat/hello/git/trees/abc?recursive=1"
    );
}

#[test]
fn test_tree_url_extraction() {
    let resp = ShaResponse {
        commit: ShaResponseCommit {
            commit: ShaResponseTree {
                tree: ShaResponseTreeData { url: "https://example.invalid/tree".to_string() },
            },
        },
    };
    assert_eq!(tree_url_of(&resp).as_str(), "https://example.invalid/tree");
}
