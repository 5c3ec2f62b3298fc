use treecat::rules::{compile, split_lines, PatternErrorKind, RuleSet};

fn rules_from(text: &str) -> RuleSet {
    let bytes = text.as_bytes().to_vec();
    let lines = split_lines(&bytes);
    compile(b"root".to_vec(), &lines).unwrap()
}

fn path(segs: &[&str]) -> Vec<Vec<u8>> {
    segs.iter().map(|s| s.as_bytes().to_vec()).collect()
}

#[test]
fn last_match_wins_negation_reincludes() {
    let rs = rules_from("*.log\n!keep.log\n");
    assert!(rs.is_ignored(&path(&["other.log"]), false));
    assert!(!rs.is_ignored(&path(&["keep.log"]), false));
}

#[test]
fn last_match_wins_reversed_order_excludes() {
    let rs = rules_from("!keep.log\n*.log\n");
    assert!(rs.is_ignored(&path(&["keep.log"]), false));
    assert!(rs.is_ignored(&path(&["other.log"]), false));
}

#[test]
fn anchored_rule_only_matches_at_root() {
    let rs = rules_from("/build\n");
    assert!(rs.is_ignored(&path(&["build"]), true));
    assert!(!rs.is_ignored(&path(&["src", "build"]), true));
}

#[test]
fn unanchored_rule_matches_at_any_depth() {
    let rs = rules_from("build\n");
    assert!(rs.is_ignored(&path(&["build"]), true));
    assert!(rs.is_ignored(&path(&["src", "build"]), true));
}

#[test]
fn directory_only_rule_skips_files() {
    let rs = rules_from("build/\n");
    assert!(rs.is_ignored(&path(&["build"]), true));
    assert!(!rs.is_ignored(&path(&["build"]), false));
}

#[test]
fn git_directory_is_implicitly_ignored() {
    let rs = rules_from("");
    assert!(rs.is_ignored(&path(&[".git"]), true));
    assert!(!rs.is_ignored(&path(&[".git"]), false));
}

#[test]
fn git_rule_can_be_negated_by_user_rule() {
    let rs = rules_from("!.git\n");
    assert!(!rs.is_ignored(&path(&[".git"]), true));
}

#[test]
fn star_and_question_wildcards() {
    let rs = rules_from("a?.txt\n*.log\n");
    assert!(rs.is_ignored(&path(&["ab.txt"]), false));
    assert!(!rs.is_ignored(&path(&["abc.txt"]), false));
    assert!(rs.is_ignored(&path(&["deep.log"]), false));
}

#[test]
fn star_does_not_cross_separators() {
    let rs = rules_from("/a*\n");
    assert!(rs.is_ignored(&path(&["abc"]), false));
    assert!(!rs.is_ignored(&path(&["abc", "d"]), false));
}

#[test]
fn character_classes() {
    let rs = rules_from("[a-c].txt\n[!x]z.txt\n");
    assert!(rs.is_ignored(&path(&["b.txt"]), false));
    assert!(!rs.is_ignored(&path(&["d.txt"]), false));
    assert!(rs.is_ignored(&path(&["yz.txt"]), false));
    assert!(!rs.is_ignored(&path(&["xz.txt"]), false));
}

#[test]
fn double_star_spans_segments() {
    let rs = rules_from("/a/**/z.txt\n");
    assert!(rs.is_ignored(&path(&["a", "z.txt"]), false));
    assert!(rs.is_ignored(&path(&["a", "b", "z.txt"]), false));
    assert!(rs.is_ignored(&path(&["a", "b", "c", "z.txt"]), false));
    assert!(!rs.is_ignored(&path(&["b", "z.txt"]), false));
}

#[test]
fn double_star_matches_zero_segments() {
    let rs = rules_from("/logs/**\n");
    assert!(rs.is_ignored(&path(&["logs"]), true));
    assert!(rs.is_ignored(&path(&["logs", "x.txt"]), false));
    assert!(!rs.is_ignored(&path(&["log"]), true));
}

#[test]
fn unanchored_multi_segment_rule_matches_at_depth() {
    let rs = rules_from("b/c.txt\n");
    assert!(rs.is_ignored(&path(&["b", "c.txt"]), false));
    assert!(rs.is_ignored(&path(&["a", "b", "c.txt"]), false));
    assert!(!rs.is_ignored(&path(&["c.txt"]), false));
}

#[test]
fn unmatched_path_is_not_ignored() {
    let rs = rules_from("*.log\n");
    assert!(!rs.is_ignored(&path(&["main.rs"]), false));
}

#[test]
fn comments_and_blank_lines_are_skipped() {
    let rs = rules_from("# a comment\n\n*.log\n");
    assert!(rs.is_ignored(&path(&["a.log"]), false));
    assert!(!rs.is_ignored(&path(&["# a comment"]), false));
}

#[test]
fn unclosed_class_is_a_pattern_error() {
    let bytes = b"ok.txt\n[bad\n".to_vec();
    let lines = split_lines(&bytes);
    match compile(b"root".to_vec(), &lines) {
        Ok(_) => panic!("an unclosed class must not compile"),
        Err(err) => {
            assert_eq!(err.line, 1);
            assert_eq!(err.kind, PatternErrorKind::UnclosedClass);
        }
    }
}

#[test]
fn empty_pattern_is_a_pattern_error() {
    let bytes = b"!\n".to_vec();
    let lines = split_lines(&bytes);
    match compile(b"root".to_vec(), &lines) {
        Ok(_) => panic!("an empty pattern must not compile"),
        Err(err) => {
            assert_eq!(err.line, 0);
            assert_eq!(err.kind, PatternErrorKind::EmptyPattern);
        }
    }
}

#[test]
fn split_lines_trims_carriage_returns() {
    let bytes = b"a\r\nb\n".to_vec();
    let lines = split_lines(&bytes);
    assert_eq!(lines, vec![b"a".to_vec(), b"b".to_vec(), b"".to_vec()]);
}
