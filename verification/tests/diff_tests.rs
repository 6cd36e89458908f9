use rgit::diff::{diff_file, format_diff_output, myers_diff, should_process};
use rgit::objects::DiffOp;

#[test]
fn identical_inputs_keep_everything() {
    let ops = myers_diff(&["a", "b"], &["a", "b"]);
    assert_eq!(ops, vec![DiffOp::Keep("a".into()), DiffOp::Keep("b".into())]);
}

#[test]
fn empty_inputs_give_no_ops() {
    assert!(myers_diff(&[], &[]).is_empty());
}

#[test]
fn insertion_only() {
    let ops = myers_diff(&[], &["x", "y"]);
    assert_eq!(ops, vec![DiffOp::Insert("x".into()), DiffOp::Insert("y".into())]);
}

#[test]
fn script_rebuilds_both_sides_and_is_short() {
    let old = ["a", "b", "c", "a", "b", "b", "a"];
    let new = ["c", "b", "a", "b", "a", "c"];
    let ops = myers_diff(&old, &new);
    let mut o = Vec::new();
    let mut n = Vec::new();
    let mut edits = 0;
    for op in &ops {
        match op {
            DiffOp::Keep(l) => {
                o.push(l.clone());
                n.push(l.clone());
            }
            DiffOp::Delete(l) => {
                o.push(l.clone());
                edits += 1;
            }
            DiffOp::Insert(l) => {
                n.push(l.clone());
                edits += 1;
            }
        }
    }
    assert_eq!(o, old.iter().map(|s| s.to_string()).collect::<Vec<_>>());
    assert_eq!(n, new.iter().map(|s| s.to_string()).collect::<Vec<_>>());
    // the classic example: the shortest edit script has 5 edits
    assert_eq!(edits, 5);
}

#[test]
fn one_changed_line_diff_text() {
    let out = format_diff_output("f.txt", &["a"], &["b"], "a/f.txt", "b/f.txt");
    assert_eq!(
        out,
        "diff --git a/f.txt b/f.txt\n--- a/f.txt\n+++ b/f.txt\n@@ -1,1 +1,1 @@\n-a\n+b\n"
    );
}

#[test]
fn no_change_no_text() {
    assert_eq!(format_diff_output("f", &["a"], &["a"], "a/f", "b/f"), "");
    let text = ["x", "y", "x", "", "y", "z"];
    assert_eq!(format_diff_output("g", &text, &text, "a/g", "b/g"), "");
}

#[test]
fn context_is_three_lines() {
    let old = ["1", "2", "3", "4", "5", "6", "7", "8", "9"];
    let new = ["1", "2", "3", "4", "X", "6", "7", "8", "9"];
    let out = format_diff_output("n", &old, &new, "a/n", "b/n");
    assert_eq!(
        out,
        "diff --git a/n b/n\n--- a/n\n+++ b/n\n@@ -2,7 +2,7 @@\n 2\n 3\n 4\n-5\n+X\n 6\n 7\n 8\n"
    );
}

#[test]
fn diff_file_labels_and_lines() {
    let out = diff_file("p", b"x\ny\n", b"x\nz\n").unwrap();
    assert_eq!(out, "diff --git a/p b/p\n--- a/p\n+++ b/p\n@@ -1,2 +1,2 @@\n x\n-y\n+z\n");
    assert_eq!(diff_file("p", b"same", b"same").unwrap(), "");
    let added = diff_file("q", b"", b"new\n").unwrap();
    assert_eq!(added, "diff --git a/q b/q\n--- a/q\n+++ b/q\n@@ -1,0 +1,1 @@\n+new\n");
}

#[test]
fn invalid_utf8_lines_are_decoded_lossily() {
    let out = diff_file("r", b"ok\n\xffbad\n", b"ok\n").unwrap();
    assert_eq!(out, "diff --git a/r b/r\n--- a/r\n+++ b/r\n@@ -1,2 +1,1 @@\n ok\n-\u{FFFD}bad\n");
}

#[test]
fn path_filters() {
    let none: Vec<String> = vec![];
    assert!(should_process(&none, "anything"));
    let f = vec!["src".to_string()];
    assert!(should_process(&f, "src"));
    assert!(should_process(&f, "src/main.rs"));
    assert!(!should_process(&f, "srcx/main.rs"));
    assert!(!should_process(&f, "docs/src"));
}

#[test]
fn deletions_come_before_insertions() {
    assert_eq!(myers_diff(&["a"], &["b"]), vec![DiffOp::Delete("a".into()), DiffOp::Insert("b".into())]);
    assert!(myers_diff(&[], &[]).is_empty());
    let ops = myers_diff(&["x", "a", "y", "b", "z"], &["x", "c", "y", "d", "e", "z"]);
    for w in ops.windows(2) {
        assert!(!(matches!(w[0], DiffOp::Insert(_)) && matches!(w[1], DiffOp::Delete(_))));
    }
    assert_eq!(
        format_diff_output("f", &["a"], &["b"], "a/f", "b/f"),
        "diff --git a/f b/f\n--- a/f\n+++ b/f\n@@ -1,1 +1,1 @@\n-a\n+b\n"
    );
}
