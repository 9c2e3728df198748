use quick_proj::text::base_name;
use quick_proj::text::contains_sub;
use quick_proj::text::expand_tilde;
use quick_proj::text::join_one;
use quick_proj::text::lex_le_exec;
use quick_proj::text::shorten_with_home;
use quick_proj::text::split_spaces;

#[test]
fn test_shorten_with_home() {
    assert_eq!(shorten_with_home("/home/user/projects/test", "/home/user"), "~/projects/test");
    assert_eq!(shorten_with_home("/opt/elsewhere", "/home/user"), "/opt/elsewhere");
}

#[test]
fn test_base_name() {
    assert_eq!(base_name("/home/user/src"), "src");
    assert_eq!(base_name("plain"), "plain");
    assert_eq!(base_name("/trailing/"), "");
}

#[test]
fn test_join_one() {
    assert_eq!(join_one("/home/user", ".git"), "/home/user/.git");
}

#[test]
fn test_lex_le_exec() {
    assert!(lex_le_exec("alpha", "beta"));
    assert!(!lex_le_exec("beta", "alpha"));
    assert!(lex_le_exec("abc", "abc"));
    assert!(lex_le_exec("ab", "abc"));
}

#[test]
fn test_split_spaces() {
    assert_eq!(split_spaces("rust tool"), vec!["rust".to_string(), "tool".to_string()]);
    assert_eq!(split_spaces("  spaced   out  "), vec!["spaced".to_string(), "out".to_string()]);
    assert!(split_spaces("").is_empty());
    assert!(split_spaces("   ").is_empty());
}

#[test]
fn test_split_spaces_unicode_whitespace() {
    // No-break space, vertical tab and ideographic space all separate terms,
    // as str::split_whitespace would have it.
    assert_eq!(split_spaces("a\u{a0}b"), vec!["a".to_string(), "b".to_string()]);
    assert_eq!(split_spaces("a\u{b}b\u{3000}c"), "a b c".split_whitespace().map(str::to_string).collect::<Vec<String>>());
    assert_eq!(split_spaces("x\u{2003}y"), vec!["x".to_string(), "y".to_string()]);
}

#[test]
fn test_expand_tilde() {
    assert_eq!(expand_tilde("~/test", "/home/user"), "/home/user/test");
    assert_eq!(expand_tilde("~", "/home/user"), "/home/user");
    assert_eq!(expand_tilde("/absolute", "/home/user"), "/absolute");
    assert_eq!(expand_tilde("~other/x", "/home/user"), "~other/x");
    assert!(!expand_tilde("~/test", "/home/user").contains('~'));
}

#[test]
fn test_contains_sub() {
    assert!(contains_sub("rust-project", "rust"));
    assert!(contains_sub("rust-project", ""));
    assert!(!contains_sub("rust", "rust-project"));
    assert!(!contains_sub("node-app", "rust"));
}
