use all_the_markdowns::finder::find_markdown_files;
use all_the_markdowns::outline::{FindError, MarkdownFile};
use all_the_markdowns::scan::FsEntry;

fn file(path: &str) -> FsEntry {
    FsEntry { path: path.to_string(), is_dir: false }
}

fn dir(path: &str) -> FsEntry {
    FsEntry { path: path.to_string(), is_dir: true }
}

fn names(v: &[&str]) -> Vec<String> {
    v.iter().map(|s| s.to_string()).collect()
}

fn run(
    index: &[&str],
    root: &str,
    ignore: &[&str],
    entries: Vec<FsEntry>,
) -> Result<Vec<MarkdownFile>, FindError> {
    find_markdown_files(&names(index), &root.to_string(), &names(ignore), &entries)
}

#[test]
fn readme_takes_folder_slot_and_siblings_follow() {
    let entries = vec![
        dir("."),
        file("./README.md"),
        file("./baz.md"),
        dir("./foo"),
        file("./foo/README.md"),
        file("./foo/bar.md"),
    ];
    let out = run(&["README.md"], ".", &[], entries).unwrap();
    let paths: Vec<&str> = out.iter().map(|m| m.filename.as_str()).collect();
    assert_eq!(paths, vec!["./README.md", "./baz.md", "./foo/README.md", "./foo/bar.md"]);
    // the root index file inherits the root's own (empty) numbering
    assert_eq!(out[0].section, Vec::<usize>::new());
    assert_eq!(out[1].section, vec![1]);
    // foo's index file takes foo's slot, and foo itself is not listed
    assert_eq!(out[2].section, vec![2]);
    assert_eq!(out[3].section, vec![2, 1]);
    assert!(out.iter().all(|m| !m.is_folder));
    assert_eq!(out[2].name, "README.md");
}

#[test]
fn folders_without_index_become_entries() {
    let entries = vec![dir("."), dir("./guide"), file("./guide/intro.md"), file("./a.md")];
    let out = run(&["README.md"], ".", &[], entries).unwrap();
    let paths: Vec<&str> = out.iter().map(|m| m.filename.as_str()).collect();
    assert_eq!(paths, vec!["./a.md", "./guide", "./guide/intro.md"]);
    assert_eq!(out[0].section, vec![1]);
    assert_eq!(out[1].section, vec![2]);
    assert_eq!(out[2].section, vec![2, 1]);
    assert!(!out[0].is_folder);
    assert!(out[1].is_folder);
    assert_eq!(out[1].name, "guide");
}

#[test]
fn sibling_index_sorts_before_alphabetically_earlier_file() {
    let entries = vec![
        dir("."),
        dir("./foo"),
        file("./foo/INSTALL.md"),
        file("./foo/README.md"),
    ];
    let out = run(&["README.md"], ".", &[], entries).unwrap();
    let paths: Vec<&str> = out.iter().map(|m| m.filename.as_str()).collect();
    assert_eq!(paths, vec!["./foo/README.md", "./foo/INSTALL.md"]);
    assert_eq!(out[0].section, vec![1]);
    assert_eq!(out[1].section, vec![1, 1]);
}

#[test]
fn ignore_prefix_prunes_whole_subtree() {
    let entries = vec![
        dir("."),
        dir("./docs"),
        file("./docs/x.md"),
        dir("./docs/deep"),
        file("./docs/deep/y.md"),
        file("./a.md"),
    ];
    let out = run(&["README.md"], ".", &["./docs"], entries).unwrap();
    let paths: Vec<&str> = out.iter().map(|m| m.filename.as_str()).collect();
    assert_eq!(paths, vec!["./a.md"]);
}

#[test]
fn ignore_prefix_matches_loosely_beyond_segment_boundary() {
    // a prefix is matched on the plain string, so "./docs" also
    // excludes "./docs-draft"
    let entries = vec![
        dir("."),
        dir("./docs-draft"),
        file("./docs-draft/x.md"),
        file("./a.md"),
    ];
    let out = run(&["README.md"], ".", &["./docs"], entries).unwrap();
    let paths: Vec<&str> = out.iter().map(|m| m.filename.as_str()).collect();
    assert_eq!(paths, vec!["./a.md"]);
}

#[test]
fn hidden_files_and_directories_are_excluded() {
    let entries = vec![
        dir("."),
        file("./.hidden.md"),
        dir("./.git"),
        file("./.git/notes.md"),
        file("./seen.md"),
    ];
    let out = run(&["README.md"], ".", &[], entries).unwrap();
    let paths: Vec<&str> = out.iter().map(|m| m.filename.as_str()).collect();
    assert_eq!(paths, vec!["./seen.md"]);
}

#[test]
fn non_markdown_and_wrong_case_extensions_are_skipped() {
    let entries = vec![
        dir("."),
        file("./a.txt"),
        file("./b.MD"),
        file("./noext"),
        file("./ok.md"),
    ];
    let out = run(&["README.md"], ".", &[], entries).unwrap();
    let paths: Vec<&str> = out.iter().map(|m| m.filename.as_str()).collect();
    assert_eq!(paths, vec!["./ok.md"]);
}

#[test]
fn depth_reset_between_sibling_subtrees() {
    let entries = vec![
        dir("."),
        dir("./a"),
        file("./a/x.md"),
        dir("./b"),
        file("./b/y.md"),
    ];
    let out = run(&["README.md"], ".", &[], entries).unwrap();
    let paths: Vec<&str> = out.iter().map(|m| m.filename.as_str()).collect();
    assert_eq!(paths, vec!["./a", "./a/x.md", "./b", "./b/y.md"]);
    assert_eq!(out[0].section, vec![1]);
    assert_eq!(out[1].section, vec![1, 1]);
    assert_eq!(out[2].section, vec![2]);
    assert_eq!(out[3].section, vec![2, 1]);
}

#[test]
fn deep_nesting_fails_with_the_offending_path() {
    let mut path = String::from(".");
    for i in 1..=25 {
        path.push_str(&format!("/d{:02}", i));
    }
    path.push_str("/x.md");
    let entries = vec![dir("."), file(&path)];
    let err = run(&["README.md"], ".", &[], entries).unwrap_err();
    let FindError::DepthExceeded(p) = err;
    // the first entry in outline order that nests too deep is the
    // ancestor made of twenty-four components
    let mut expected = String::from(".");
    for i in 1..=24 {
        expected.push_str(&format!("/d{:02}", i));
    }
    assert_eq!(p, expected);
}

#[test]
fn twenty_three_levels_still_succeed() {
    let mut path = String::from(".");
    for i in 1..=22 {
        path.push_str(&format!("/d{:02}", i));
    }
    path.push_str("/x.md");
    let entries = vec![dir("."), file(&path)];
    let out = run(&["README.md"], ".", &[], entries).unwrap();
    assert_eq!(out.len(), 23);
    assert_eq!(out.last().unwrap().section.len(), 23);
}

#[test]
fn repeated_runs_agree() {
    let build = || {
        vec![
            dir("."),
            file("./README.md"),
            dir("./foo"),
            file("./foo/bar.md"),
            file("./baz.md"),
        ]
    };
    let a = run(&["README.md"], ".", &[], build()).unwrap();
    let b = run(&["README.md"], ".", &[], build()).unwrap();
    assert_eq!(a.len(), b.len());
    for (x, y) in a.iter().zip(b.iter()) {
        assert_eq!(x.filename, y.filename);
        assert_eq!(x.name, y.name);
        assert_eq!(x.section, y.section);
        assert_eq!(x.is_folder, y.is_folder);
    }
}

#[test]
fn root_with_trailing_slash() {
    let entries = vec![dir("./"), file("./a.md")];
    let out = run(&["README.md"], "./", &[], entries).unwrap();
    assert_eq!(out.len(), 1);
    assert_eq!(out[0].filename, "./a.md");
    assert_eq!(out[0].section, vec![1]);
}

#[test]
fn alternative_index_names_are_honoured() {
    let entries = vec![
        dir("."),
        dir("./foo"),
        file("./foo/index.md"),
        file("./foo/zzz.md"),
    ];
    let out = run(&["index.md"], ".", &[], entries).unwrap();
    let paths: Vec<&str> = out.iter().map(|m| m.filename.as_str()).collect();
    assert_eq!(paths, vec!["./foo/index.md", "./foo/zzz.md"]);
    assert_eq!(out[0].section, vec![1]);
    assert_eq!(out[1].section, vec![1, 1]);
}

#[test]
fn duplicate_walk_entries_yield_one_outline_entry() {
    let entries = vec![dir("."), file("./a.md"), file("./a.md")];
    let out = run(&["README.md"], ".", &[], entries).unwrap();
    assert_eq!(out.len(), 1);
    assert_eq!(out[0].section, vec![1]);
}

#[test]
fn no_entries_give_an_empty_outline() {
    let out = run(&["README.md"], ".", &[], vec![dir(".")]).unwrap();
    assert!(out.is_empty());
}

#[test]
fn depth_error_message_names_the_path() {
    let mut path = String::from(".");
    for i in 1..=25 {
        path.push_str(&format!("/d{:02}", i));
    }
    path.push_str("/x.md");
    let entries = vec![dir("."), file(&path)];
    let err = run(&["README.md"], ".", &[], entries).unwrap_err();
    let FindError::DepthExceeded(p) = &err;
    assert_eq!(err.message(), format!("folder structure too deep: {}", p));
}

#[test]
fn markdown_deep_in_the_tree_brings_all_its_ancestors() {
    let entries = vec![dir("."), file("./a/b/c/leaf.md")];
    let out = run(&["README.md"], ".", &[], entries).unwrap();
    let paths: Vec<&str> = out.iter().map(|m| m.filename.as_str()).collect();
    assert_eq!(paths, vec!["./a", "./a/b", "./a/b/c", "./a/b/c/leaf.md"]);
    assert_eq!(out[0].section, vec![1]);
    assert_eq!(out[1].section, vec![1, 1]);
    assert_eq!(out[2].section, vec![1, 1, 1]);
    assert_eq!(out[3].section, vec![1, 1, 1, 1]);
    assert!(out[0].is_folder && out[1].is_folder && out[2].is_folder);
    assert!(!out[3].is_folder);
}
