use treecat::rules::{compile, split_lines, RuleSet};
use treecat::tree::{run, sort_nodes, Node};

fn rules_from(text: &str) -> RuleSet {
    let bytes = text.as_bytes().to_vec();
    let lines = split_lines(&bytes);
    compile(b"root".to_vec(), &lines).unwrap()
}

fn file(name: &str, content: &[u8]) -> Node {
    Node::File { name: name.as_bytes().to_vec(), content: content.to_vec() }
}

fn dir(name: &str, children: Vec<Node>) -> Node {
    Node::Dir { name: name.as_bytes().to_vec(), children: sort_nodes(children) }
}

fn output(roots: Vec<Node>, rs: &RuleSet) -> Vec<u8> {
    let sorted = sort_nodes(roots);
    run(&sorted, rs)
}

#[test]
fn end_to_end_example() {
    let rs = rules_from("b.txt\n");
    let roots = vec![
        file("a.txt", b"hi"),
        file(".gitignore", b"b.txt"),
        file("b.txt", b"bye"),
        dir("sub", vec![file("c.txt", b"yo")]),
    ];
    let out = output(roots, &rs);
    let expected = "----- a.txt -----\nhi\n\n----- sub/c.txt -----\nyo\n\n";
    assert_eq!(out, expected.as_bytes().to_vec());
}

#[test]
fn block_format_is_exact() {
    let rs = rules_from("");
    let out = output(vec![file("x.txt", b"hello")], &rs);
    assert_eq!(out, b"----- x.txt -----\nhello\n\n".to_vec());
}

#[test]
fn ignored_directory_is_pruned_whole() {
    let rs = rules_from("secret\n");
    let roots = vec![
        dir("secret", vec![file("inner.txt", b"hidden"), dir("deep", vec![file("deeper.txt", b"x")])]),
        file("open.txt", b"seen"),
    ];
    let out = output(roots, &rs);
    assert_eq!(out, b"----- open.txt -----\nseen\n\n".to_vec());
}

#[test]
fn extensionless_files_never_appear() {
    let rs = rules_from("");
    let roots = vec![file("README", b"plain"), file("README.md", b"marked")];
    let out = output(roots, &rs);
    assert_eq!(out, b"----- README.md -----\nmarked\n\n".to_vec());
}

#[test]
fn trailing_dot_counts_as_no_extension() {
    let rs = rules_from("");
    let roots = vec![file("noext.", b"a"), file(".hidden", b"b"), file("ok.rs", b"c")];
    let out = output(roots, &rs);
    assert_eq!(out, b"----- ok.rs -----\nc\n\n".to_vec());
}

#[test]
fn non_utf8_file_is_skipped_and_run_completes() {
    let rs = rules_from("");
    let roots = vec![file("bad.bin", &[0xff, 0xfe, 0x41]), file("good.txt", b"fine")];
    let out = output(roots, &rs);
    assert_eq!(out, b"----- good.txt -----\nfine\n\n".to_vec());
}

#[test]
fn negation_reincludes_in_output() {
    let rs = rules_from("*.log\n!keep.log\n");
    let roots = vec![file("keep.log", b"k"), file("other.log", b"o")];
    let out = output(roots, &rs);
    assert_eq!(out, b"----- keep.log -----\nk\n\n".to_vec());
}

#[test]
fn anchoring_in_output() {
    let rs = rules_from("/build\n");
    let roots = vec![
        dir("build", vec![file("top.txt", b"t")]),
        dir("src", vec![dir("build", vec![file("nested.txt", b"n")])]),
    ];
    let out = output(roots, &rs);
    assert_eq!(out, b"----- src/build/nested.txt -----\nn\n\n".to_vec());
}

#[test]
fn output_is_deterministic_across_enumeration_orders() {
    let rs = rules_from("");
    let first = vec![
        file("b.txt", b"2"),
        dir("d", vec![file("y.txt", b"4"), file("x.txt", b"3")]),
        file("a.txt", b"1"),
    ];
    let second = vec![
        file("a.txt", b"1"),
        dir("d", vec![file("x.txt", b"3"), file("y.txt", b"4")]),
        file("b.txt", b"2"),
    ];
    let out1 = output(first, &rs);
    let out2 = output(second, &rs);
    assert_eq!(out1, out2);
}

#[test]
fn running_twice_gives_identical_bytes() {
    let rs = rules_from("*.log\n");
    let roots = vec![file("a.txt", b"hi"), dir("s", vec![file("b.txt", b"ho")])];
    let sorted = sort_nodes(roots);
    let out1 = run(&sorted, &rs);
    let out2 = run(&sorted, &rs);
    assert_eq!(out1, out2);
}

#[test]
fn entries_are_visited_in_sorted_order() {
    let rs = rules_from("");
    let roots = vec![file("z.txt", b"z"), file("a.txt", b"a"), file("m.txt", b"m")];
    let out = output(roots, &rs);
    let expected = "----- a.txt -----\na\n\n----- m.txt -----\nm\n\n----- z.txt -----\nz\n\n";
    assert_eq!(out, expected.as_bytes().to_vec());
}

#[test]
fn git_subtree_is_pruned_by_default() {
    let rs = rules_from("");
    let roots = vec![
        dir(".git", vec![file("config.txt", b"secret")]),
        file("visible.txt", b"v"),
    ];
    let out = output(roots, &rs);
    assert_eq!(out, b"----- visible.txt -----\nv\n\n".to_vec());
}
