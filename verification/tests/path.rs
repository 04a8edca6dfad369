use configstack::path::split_path;
use configstack::ConfigStack;
use serde_json::Value;

fn keys(parts: &[&str]) -> Vec<String> {
    parts.iter().map(|s| s.to_string()).collect()
}

#[test]
fn splits_on_the_separator() {
    assert_eq!(split_path("a/b/c", '/'), keys(&["a", "b", "c"]));
    assert_eq!(split_path("alpha/beta", '/'), keys(&["alpha", "beta"]));
    assert_eq!(split_path("single", '/'), keys(&["single"]));
}

#[test]
fn trims_separators_at_both_ends() {
    assert_eq!(split_path("/a/b", '/'), keys(&["a", "b"]));
    assert_eq!(split_path("a/b/", '/'), keys(&["a", "b"]));
    assert_eq!(split_path("///a/b//", '/'), keys(&["a", "b"]));
    assert_eq!(split_path("/a", '/'), keys(&["a"]));
}

#[test]
fn empty_and_blank_paths_give_one_empty_key() {
    assert_eq!(split_path("", '/'), keys(&[""]));
    assert_eq!(split_path("/", '/'), keys(&[""]));
    assert_eq!(split_path("////", '/'), keys(&[""]));
}

#[test]
fn separators_in_a_row_give_empty_keys() {
    assert_eq!(split_path("a//b", '/'), keys(&["a", "", "b"]));
    assert_eq!(split_path("/a///b/", '/'), keys(&["a", "", "", "b"]));
}

#[test]
fn other_separators_are_ordinary_characters() {
    assert_eq!(split_path("a.b/c.d", '/'), keys(&["a.b", "c.d"]));
    assert_eq!(split_path("a.b/c.d", '.'), keys(&["a", "b/c", "d"]));
    assert_eq!(split_path("/a.b/", '.'), keys(&["/a", "b/"]));
}

#[test]
fn renaming_the_separator_keeps_the_keys() {
    assert_eq!(split_path("a.b.c", '.'), split_path("a/b/c", '/'));
    assert_eq!(split_path("..x..y.", '.'), split_path("//x//y/", '/'));
    assert_eq!(split_path("", '.'), split_path("", '/'));
}

#[test]
fn splits_by_character_not_by_byte() {
    assert_eq!(split_path("é/ü/日本", '/'), keys(&["é", "ü", "日本"]));
    assert_eq!(split_path("→a→bé→", '→'), keys(&["a", "bé"]));
    assert_eq!(split_path("ééé", 'é'), keys(&[""]));
}

#[test]
fn stack_splits_on_its_own_separator() {
    let slashed: ConfigStack<Value> = ConfigStack::new();
    assert_eq!(slashed.path_to_parts("/foo/bar/"), keys(&["foo", "bar"]));
    assert_eq!(slashed.path_to_parts("foo.bar"), keys(&["foo.bar"]));
    let dotted = slashed.with_path_sep('.');
    assert_eq!(dotted.path_to_parts("foo.bar.baz"), keys(&["foo", "bar", "baz"]));
    assert_eq!(dotted.path_to_parts("/foo/bar/"), keys(&["/foo/bar/"]));
}
