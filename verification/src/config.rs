//! The CLI's configuration file and its defaults.

use vstd::prelude::*;
use crate::parse::strings_view;
use crate::scan::ScanError;

verus! {

/// The whole configuration.
pub struct Config {
    pub github: GitHub,
    pub scan: Scan,
}

/// Which repository to sync, and the variable that holds the token.
pub struct GitHub {
    pub repo: String,
    pub token_env: String,
}

/// Which paths to scan and which tags to look for.
pub struct Scan {
    pub include_paths: Vec<String>,
    pub exclude: Vec<String>,
    pub tags: Vec<String>,
}

impl GitHub {
    /// No repository yet; the token is read from `TARO_GITHUB_TOKEN`.
    pub fn new() -> (r: GitHub)
        ensures
            r.repo@ == Seq::<char>::empty(),
            r.token_env@ == "TARO_GITHUB_TOKEN"@,
    {
        GitHub { repo: String::new(), token_env: "TARO_GITHUB_TOKEN".to_owned() }
    }
}

impl Scan {
    /// Nothing included, `.git/**` excluded, and the tags `TODO`, `BUG`,
    /// `HELP` and `DEPR`.
    pub fn new() -> (r: Scan)
        ensures
            strings_view(r.include_paths@) == Seq::<Seq<char>>::empty(),
            strings_view(r.exclude@) == seq![".git/**"@],
            strings_view(r.tags@) == seq!["TODO"@, "BUG"@, "HELP"@, "DEPR"@],
    {
        let include_paths: Vec<String> = Vec::new();
        let mut exclude: Vec<String> = Vec::new();
        exclude.push(".git/**".to_owned());
        let mut tags: Vec<String> = Vec::new();
        tags.push("TODO".to_owned());
        tags.push("BUG".to_owned());
        tags.push("HELP".to_owned());
        tags.push("DEPR".to_owned());
        assert(strings_view(include_paths@) =~= Seq::<Seq<char>>::empty());
        assert(strings_view(exclude@) =~= seq![".git/**"@]);
        assert(strings_view(tags@) =~= seq!["TODO"@, "BUG"@, "HELP"@, "DEPR"@]);
        Scan { include_paths, exclude, tags }
    }
}

impl Config {
    /// The default configuration that `init` writes.
    pub fn new() -> (r: Config)
        ensures
            r.github.repo@ == Seq::<char>::empty(),
            r.github.token_env@ == "TARO_GITHUB_TOKEN"@,
            strings_view(r.scan.include_paths@) == Seq::<Seq<char>>::empty(),
            strings_view(r.scan.exclude@) == seq![".git/**"@],
            strings_view(r.scan.tags@) == seq!["TODO"@, "BUG"@, "HELP"@, "DEPR"@],
    {
        Config { github: GitHub::new(), scan: Scan::new() }
    }
}

/// Scans the directories that a configuration names. Nothing is scanned yet:
/// this always succeeds.
pub fn scan_dirs(config: &Config) -> (r: Result<(), ScanError>)
    ensures
        r is Ok,
{
    Ok(())
}

} // verus!
