use rgit::gitignore::{glob_match, is_path_ignored, normalize_path, parse_gitignore_line, path_file_name};

#[test]
fn glob_basics() {
    assert!(glob_match("*.txt", "a.txt"));
    assert!(!glob_match("*.txt", "dir/a.txt"));
    assert!(glob_match("**/a.txt", "x/y/a.txt"));
    assert!(glob_match("**/a.txt", "a.txt"));
    assert!(glob_match("a/**", "a/b/c"));
    assert!(glob_match("?.rs", "x.rs"));
    assert!(!glob_match("?.rs", "/.rs"));
    assert!(!glob_match("?", ""));
    assert!(glob_match("", ""));
    assert!(!glob_match("", "a"));
    assert!(glob_match("a*b", "ab"));
    assert!(glob_match("a*b", "axxb"));
    assert!(!glob_match("a*b", "ax/b"));
}

#[test]
fn parse_lines() {
    assert!(parse_gitignore_line("   ", "").is_none());
    assert!(parse_gitignore_line("# comment", "").is_none());
    let r = parse_gitignore_line("!build/\r\n", "sub").unwrap();
    assert_eq!(r.pattern, "build");
    assert_eq!(r.base_dir, "sub");
    assert!(r.negated);
    assert!(r.dir_only);
    assert!(!r.has_slash);
    let r = parse_gitignore_line("/target", "").unwrap();
    assert_eq!(r.pattern, "target");
    assert!(r.has_slash);
    let r = parse_gitignore_line("docs/*.md", "").unwrap();
    assert_eq!(r.pattern, "docs/*.md");
    assert!(r.has_slash);
    assert!(!r.negated);
}

#[test]
fn last_matching_rule_wins() {
    let rules = vec![
        parse_gitignore_line("*.log", "").unwrap(),
        parse_gitignore_line("!keep.log", "").unwrap(),
    ];
    assert!(is_path_ignored(&rules, "a/b.log", false));
    assert!(!is_path_ignored(&rules, "keep.log", false));
    assert!(!is_path_ignored(&rules, "a.txt", false));
}

#[test]
fn dir_only_and_base_dirs() {
    let rules = vec![parse_gitignore_line("out/", "").unwrap()];
    assert!(is_path_ignored(&rules, "out", true));
    assert!(!is_path_ignored(&rules, "out", false));
    let nested = vec![parse_gitignore_line("/gen", "pkg").unwrap()];
    assert!(is_path_ignored(&nested, "pkg/gen", false));
    assert!(!is_path_ignored(&nested, "gen", false));
    assert!(!is_path_ignored(&nested, "pkg/x/gen", false));
    // a slash-less pattern matches any segment below the base
    let any = vec![parse_gitignore_line("cache", "").unwrap()];
    assert!(is_path_ignored(&any, "a/cache/b.txt", false));
}

#[test]
fn file_names_and_normal_paths() {
    assert_eq!(path_file_name("a/b/c.txt"), "c.txt");
    assert_eq!(path_file_name("a/b/"), "b");
    assert_eq!(path_file_name("a/.."), "");
    assert_eq!(path_file_name("./x"), "x");
    assert_eq!(normalize_path("./a//b/./c"), "a/b/c");
    assert_eq!(normalize_path("/abs/path/"), "abs/path");
    assert_eq!(normalize_path("."), "");
}
