//! Configuration values the host hands to the scanner: one section
//! per scanned root, and the process-wide list of index filenames.
use vstd::prelude::*;

verus! {

/// One scanned root: an optional part title, the base directory, and
/// the ignore prefixes.
#[derive(Debug)]
pub struct Section {
    pub title: Option<String>,
    pub base: String,
    pub ignore: Vec<String>,
}

/// The whole configuration: the sections to scan, whether folders are
/// rendered as drafts, and the index filenames.
#[derive(Debug)]
pub struct Config {
    pub sections: Vec<Section>,
    pub draft_folders: bool,
    pub index_filenames: Vec<String>,
}

impl Default for Section {
    /// The default section scans the current directory and ignores
    /// nothing.
    fn default() -> (s: Section)
        ensures
            s.title is None,
            s.base@ == "./"@,
            s.ignore@.len() == 0,
    {
        Section { title: None, base: String::from_str("./"), ignore: Vec::new() }
    }
}

impl Default for Config {
    /// The default configuration scans nothing, keeps folders out of
    /// drafts, and uses the conventional index filename.
    fn default() -> (c: Config)
        ensures
            c.sections@.len() == 0,
            c.draft_folders == false,
            c.index_filenames@.len() == 1,
            c.index_filenames@[0]@ == "README.md"@,
    {
        let mut names: Vec<String> = Vec::new();
        names.push(String::from_str("README.md"));
        Config { sections: Vec::new(), draft_folders: false, index_filenames: names }
    }
}

} // verus!
