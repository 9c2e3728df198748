use quick_proj::launcher::Launcher;
use quick_proj::launcher::editor_aliases;
use quick_proj::launcher::get_available_editors;

#[test]
fn test_resolve_editor_alias() {
    let launcher = Launcher::new("vscode");
    assert_eq!(launcher.resolve_editor(), "code");

    let launcher = Launcher::new("neovim");
    assert_eq!(launcher.resolve_editor(), "nvim");
}

#[test]
fn test_resolve_editor_no_alias() {
    let launcher = Launcher::new("my-custom-editor");
    assert_eq!(launcher.resolve_editor(), "my-custom-editor");
}

#[test]
fn test_resolve_editor_case_insensitive() {
    let launcher = Launcher::new("VSCode");
    assert_eq!(launcher.resolve_editor(), "code");

    let launcher = Launcher::new("NeoVim");
    assert_eq!(launcher.resolve_editor(), "nvim");
}

#[test]
fn test_editor_aliases_exist() {
    let aliases = editor_aliases();
    assert!(!aliases.is_empty());

    for (alias, command) in &aliases {
        assert!(!alias.is_empty());
        assert!(!command.is_empty());
    }
}

#[test]
fn test_get_available_editors() {
    let count = editor_aliases().len();

    let all = get_available_editors(&vec![true; count]);
    assert_eq!(all.len(), count);
    assert_eq!(all[0], "code");

    let mut only_first = vec![false; count];
    only_first[0] = true;
    let one = get_available_editors(&only_first);
    assert_eq!(one, vec!["code".to_string()]);

    let none = get_available_editors(&vec![false; count]);
    assert!(none.is_empty());
}
