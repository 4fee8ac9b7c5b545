use all_the_markdowns::config::{Config, Section};
use all_the_markdowns::content::ContentError;
use all_the_markdowns::outline::MarkdownFile;
use all_the_markdowns::AllMarkdown;

fn folder_entry(name: &str) -> MarkdownFile {
    MarkdownFile {
        name: name.to_string(),
        filename: format!("./{}", name),
        section: vec![1],
        is_folder: true,
    }
}

fn file_entry(name: &str) -> MarkdownFile {
    MarkdownFile {
        name: name.to_string(),
        filename: format!("./{}", name),
        section: vec![1],
        is_folder: false,
    }
}

#[test]
fn folder_title_is_title_cased() {
    let (title, content) = folder_entry("getting-started_guide").content(None).unwrap();
    assert_eq!(title, "Getting Started Guide");
    assert_eq!(content, "# Getting Started Guide");
}

#[test]
fn folder_title_changes_its_input() {
    let (title, _) = folder_entry("api").content(None).unwrap();
    assert_eq!(title, "Api");
    assert_ne!(title, "api");
}

#[test]
fn file_title_strips_heading_marker() {
    let text = "## Hello World\nbody text\n".to_string();
    let (title, content) = file_entry("a.md").content(Some(&text)).unwrap();
    assert_eq!(title, "Hello World");
    assert_eq!(content, text);
}

#[test]
fn file_title_skips_leading_empty_lines() {
    let text = "\n\r\n# Late Title\nrest".to_string();
    let (title, _) = file_entry("a.md").content(Some(&text)).unwrap();
    assert_eq!(title, "Late Title");
}

#[test]
fn file_title_without_heading_is_kept_whole() {
    let text = "plain first line\nmore".to_string();
    let (title, _) = file_entry("a.md").content(Some(&text)).unwrap();
    assert_eq!(title, "plain first line");
}

#[test]
fn empty_file_has_no_content() {
    let text = String::new();
    let err = file_entry("a.md").content(Some(&text)).unwrap_err();
    assert!(matches!(err, ContentError::NoContent));
}

#[test]
fn blank_file_has_no_content() {
    let text = "\n\r\n\n".to_string();
    let err = file_entry("a.md").content(Some(&text)).unwrap_err();
    assert!(matches!(err, ContentError::NoContent));
}

#[test]
fn missing_text_is_unreadable() {
    let err = file_entry("a.md").content(None).unwrap_err();
    assert!(matches!(err, ContentError::Unreadable));
}

#[test]
fn section_defaults() {
    let s = Section::default();
    assert!(s.title.is_none());
    assert_eq!(s.base, "./");
    assert!(s.ignore.is_empty());
}

#[test]
fn config_defaults() {
    let c = Config::default();
    assert!(c.sections.is_empty());
    assert!(!c.draft_folders);
    assert_eq!(c.index_filenames, vec!["README.md".to_string()]);
}

#[test]
fn preprocessor_identity() {
    let p = AllMarkdown::new();
    assert_eq!(p.name(), "all-the-markdowns");
    assert!(p.supports_renderer("html"));
    assert!(p.supports_renderer("anything"));
    let _ = AllMarkdown::default();
}
