use markdown_studio::library::{
    display_name_of, imported_file, markdown_name, markdown_path, stem_of, natural_key, natural_key_of_name, natural_order,
    sort_paths_naturally,
};
use markdown_studio::store::{needs_file_count_column, project_summary, save_step, stored_file_count, SaveStep};

fn strings(v: &[&str]) -> Vec<String> {
    v.iter().map(|s| s.to_string()).collect()
}

#[test]
fn natural_keys() {
    assert_eq!(natural_key("notes/007-Intro.MD"), (7, "007-intro.md".to_string()));
    assert_eq!(natural_key("x/99999999999999999999.md"), (u64::MAX, "99999999999999999999.md".to_string()));
    assert_eq!(natural_key("x/readme.md"), (u64::MAX, "readme.md".to_string()));
    assert_eq!(natural_key("/"), (u64::MAX, String::new()));
    assert_eq!(natural_key_of_name("Part 12b 3"), (12, "part 12b 3".to_string()));
}

#[test]
fn natural_sort_orders_by_number_then_name() {
    let paths = strings(&["b/10-x.md", "a/2-y.md", "c/readme.md", "d/2-A.md"]);
    assert_eq!(sort_paths_naturally(&paths), strings(&["d/2-A.md", "a/2-y.md", "b/10-x.md", "c/readme.md"]));
    assert_eq!(natural_order(&paths), vec![3, 1, 0, 2]);
}

#[test]
fn natural_sort_is_stable() {
    let paths = strings(&["y/1.md", "x/1.md", "z/1.MD"]);
    assert_eq!(natural_order(&paths), vec![0, 1, 2]);
    assert!(sort_paths_naturally(&vec![]).is_empty());
}

#[test]
fn display_names() {
    assert_eq!(display_name_of("dir/.bashrc"), ".bashrc");
    assert_eq!(display_name_of("dir/archive.tar.gz"), "archive.tar");
    assert_eq!(display_name_of("dir/README"), "README");
    assert_eq!(display_name_of("/"), "Untitled");
    assert_eq!(display_name_of("dir/.."), "Untitled");
    let f = imported_file("docs/01-start.md".into(), "# Hi".into());
    assert_eq!(f.name, "01-start");
    assert_eq!(f.path, Some("docs/01-start.md".to_string()));
    assert_eq!(f.content, "# Hi");
}

#[test]
fn markdown_paths() {
    assert!(markdown_path("a/B.MD"));
    assert!(markdown_path("a/x.Markdown"));
    assert!(!markdown_path("a/.md"));
    assert!(!markdown_path("a/x.mdx"));
    assert!(!markdown_path("a/x"));
}

#[test]
fn stored_projects() {
    assert_eq!(project_summary(1, "n".into(), "t".into(), -3).file_count, 0);
    assert_eq!(project_summary(2, "n".into(), "t".into(), 250).file_count, 250);
    assert!(needs_file_count_column(&strings(&["id", "name", "payload"])));
    assert!(!needs_file_count_column(&strings(&["id", "file_count"])));
    assert_eq!(save_step(Some(4)), SaveStep::Update { id: 4 });
    assert_eq!(save_step(None), SaveStep::Insert);
    assert_eq!(stored_file_count(250), 250);
}

#[test]
fn stems_and_markdown_names() {
    assert_eq!(stem_of("notes.md"), "notes");
    assert_eq!(stem_of(".profile"), ".profile");
    assert_eq!(stem_of("a.b.c"), "a.b");
    assert_eq!(stem_of("plain"), "plain");
    assert!(markdown_name("x.mD"));
    assert!(!markdown_name("x.md.txt"));
    assert!(!markdown_name("md"));
}

#[test]
fn smaller_numbers_sort_first() {
    assert!(natural_key_of_name("file2.md") < natural_key_of_name("file10.md"));
    let paths = strings(&["docs/file10.md", "docs/file2.md", "docs/notes.md", "docs/file1.md"]);
    assert_eq!(
        sort_paths_naturally(&paths),
        strings(&["docs/file1.md", "docs/file2.md", "docs/file10.md", "docs/notes.md"])
    );
}
