use blogs::text::text_equal;
use blogs::text::text_less;
use blogs::tree::has_extension;
use blogs::tree::path_in;
use blogs::tree::role_of;
use blogs::tree::Role;

#[test]
fn equal_texts_are_told() {
    assert!(text_equal("", ""));
    assert!(text_equal("blog.yml", "blog.yml"));
    assert!(!text_equal("blog.yml", "blog.yaml"));
    assert!(!text_equal("blog.yml", "blog.ym"));
    assert!(!text_equal("a", ""));
    assert!(text_equal("grüße", "grüße"));
    assert!(!text_equal("grüße", "grusse"));
}

#[test]
fn a_text_is_not_less_than_itself() {
    assert!(!text_less("", ""));
    assert!(!text_less("2024-01-01-hello", "2024-01-01-hello"));
}

#[test]
fn a_proper_prefix_is_less() {
    assert!(text_less("", "a"));
    assert!(text_less("2024", "2024-01"));
    assert!(!text_less("2024-01", "2024"));
}

#[test]
fn the_first_difference_decides() {
    assert!(text_less("2023-12-31", "2024-01-01"));
    assert!(!text_less("2024-01-01", "2023-12-31"));
    assert!(text_less("abc", "abd"));
    assert!(text_less("abcz", "abd"));
    assert!(text_less("Z", "a"));
}

#[test]
fn texts_compare_as_str_does() {
    let samples = ["", "a", "ab", "b", "z", "é", "é!", "日本", "~", "2024/x", "2024-x"];
    for a in samples {
        for b in samples {
            assert_eq!(text_less(a, b), a < b);
            assert_eq!(text_equal(a, b), a == b);
        }
    }
}

#[test]
fn extension_follows_the_last_dot() {
    assert!(has_extension("hello.md", "md"));
    assert!(has_extension("2024-01-01-hello.world.md", "md"));
    assert!(has_extension("a.tar.gz", "gz"));
    assert!(!has_extension("a.tar.gz", "tar"));
    assert!(!has_extension("a.tar.gz", "tar.gz"));
    assert!(!has_extension("hello.md.bak", "md"));
    assert!(!has_extension("hello.markdown", "md"));
    assert!(!has_extension("hello.MD", "md"));
    assert!(!has_extension("hellomd", "md"));
    assert!(!has_extension("md", "md"));
    assert!(!has_extension("", "md"));
    assert!(has_extension("grüße.md", "md"));
}

#[test]
fn a_leading_dot_starts_no_extension() {
    assert!(!has_extension(".md", "md"));
    assert!(has_extension("..md", "md"));
    assert!(has_extension(".hidden.md", "md"));
}

#[test]
fn a_name_may_end_in_its_dot() {
    assert!(has_extension("hello.", ""));
    assert!(!has_extension("hello", ""));
    assert!(!has_extension(".", ""));
    assert!(!has_extension("blog.yml", "md"));
}

#[test]
fn paths_are_joined_with_a_slash() {
    assert_eq!(path_in("", "foo"), "foo");
    assert_eq!(path_in("foo", "bar"), "foo/bar");
    assert_eq!(path_in("foo/bar", "baz"), "foo/bar/baz");
}

#[test]
fn names_tell_what_files_hold() {
    assert_eq!(role_of("blog.yml"), Role::Manifest);
    assert_eq!(role_of("2024-01-01-hello.md"), Role::Post);
    assert_eq!(role_of("README.txt"), Role::Plain);
    assert_eq!(role_of("blog.yaml"), Role::Plain);
    assert_eq!(role_of("blog.yml.md"), Role::Post);
    assert_eq!(role_of(".md"), Role::Plain);
    assert_eq!(role_of(""), Role::Plain);
}

#[test]
fn the_names_are_those_of_the_format() {
    assert_eq!(blogs::tree::MANIFEST_FILE, "blog.yml");
    assert_eq!(blogs::tree::POSTS_EXT, "md");
}
