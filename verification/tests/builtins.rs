use pulzar::{render_help, resolve_segments, BuiltinId};

#[test]
fn resolves_longest_builtin_path() {
    let matched = resolve_segments(&["fs", "read", "LICENSE"]).expect("match");
    assert_eq!(matched.spec.id, BuiltinId::FsRead);
    assert_eq!(matched.consumed, 2);
}

#[test]
fn resolves_aliases() {
    let matched = resolve_segments(&["cat", "LICENSE"]).expect("match");
    assert_eq!(matched.spec.id, BuiltinId::FsRead);
    assert_eq!(matched.consumed, 1);
}

#[test]
fn renders_help() {
    let text = render_help(None);
    assert!(text.contains("fs read"));
    assert!(text.contains("env set"));
}
