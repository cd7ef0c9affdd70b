//! The hand-written line parser agrees with the two regular expressions that
//! describe the tag grammar, on many generated lines.

use anko::parse::{parse_tag_line, Kind};
use regex::Regex;

fn by_regex(line_reg: &Regex, block_reg: &Regex, line: &str) -> Option<(Kind, Vec<String>, String)> {
    let caps = line_reg.captures(line).or_else(|| block_reg.captures(line))?;
    let kind = match &caps[1] {
        "TODO" => Kind::Todo,
        "BUG" => Kind::Bug,
        "DEPR" => Kind::Depr,
        _ => unreachable!(),
    };
    let labels = caps
        .get(2)
        .map(|m| m.as_str().split(',').map(|s| s.trim().to_string()).collect())
        .unwrap_or_default();
    let message = caps[3].trim().to_string();
    Some((kind, labels, message))
}

fn pieces() -> Vec<&'static str> {
    vec![
        "", " ", "  ", "\t", "\n", "\r", "\u{a0}", "//", "#", "(*", "*)", "(", ")", ":", ",",
        "TODO", "BUG", "DEPR", "TOD", "x", "a b", "*", "\n ",
    ]
}

#[test]
fn parser_agrees_with_regexes_on_short_combinations() {
    let line_reg =
        Regex::new(r"^\s*(?://|#)\s*(TODO|BUG|DEPR)\s*(?:\(([^)]*)\))?\s*:\s*(.+)$").unwrap();
    let block_reg =
        Regex::new(r"^\s*\(\*\s*(TODO|BUG|DEPR)\s*(?:\(([^)]*)\))?\s*:\s*(.+?)\s*\*\)\s*$").unwrap();
    let ps = pieces();
    let mut checked = 0usize;
    let openers = ["//", "#", "(*", " //", "x"];
    let kinds = ["TODO", " BUG", "DEPR ", "TODOX"];
    let labels = ["", "(a)", " ( a, b ,)", "()", "(a", "(a:b)", "(\n)"];
    let colons = [":", " : ", "", "::"];
    for o in openers {
        for k in kinds {
            for l in labels {
                for c in colons {
                    for m1 in &ps {
                        for m2 in &ps {
                            let line = format!("{o}{k}{l}{c}{m1}{m2}");
                            assert_eq!(
                                parse_tag_line(&line),
                                by_regex(&line_reg, &block_reg, &line),
                                "{line:?}"
                            );
                            checked += 1;
                        }
                    }
                }
            }
        }
    }
    assert!(checked > 10_000);
}

#[test]
fn parser_agrees_with_regexes_on_tail_shapes() {
    let line_reg =
        Regex::new(r"^\s*(?://|#)\s*(TODO|BUG|DEPR)\s*(?:\(([^)]*)\))?\s*:\s*(.+)$").unwrap();
    let block_reg =
        Regex::new(r"^\s*\(\*\s*(TODO|BUG|DEPR)\s*(?:\(([^)]*)\))?\s*:\s*(.+?)\s*\*\)\s*$").unwrap();
    let ps = pieces();
    for head in ["// TODO:", "(* BUG(l):", "# DEPR :"] {
        for a in &ps {
            for b in &ps {
                for c in &ps {
                    let line = format!("{head}{a}{b}{c}");
                    assert_eq!(
                        parse_tag_line(&line),
                        by_regex(&line_reg, &block_reg, &line),
                        "{line:?}"
                    );
                }
            }
        }
    }
}
