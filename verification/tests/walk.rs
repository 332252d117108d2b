use blogs::add_postfix_slash;
use blogs::load;
use blogs::manifest::Field;
use blogs::walk::load_recursive;
use blogs::Blog;
use blogs::Content;
use blogs::Entry;
use blogs::Fault;
use blogs::Listing;
use blogs::LoadError;
use blogs::ManifestError;
use blogs::Post;

fn manifest_file(title: &str) -> Entry {
    let text = format!(
        "title: {title}\nindex-title: {title}\ndescription: about {title}\nmaintained-by: us\nrequires-team: false\n"
    );
    Entry::File { name: "blog.yml".to_string(), content: Content::Text(text) }
}

fn post_file(name: &str, url: &str, year: i32) -> Entry {
    let post = Post { url: url.to_string(), year, show_year: false };
    Entry::File { name: name.to_string(), content: Content::Post(post) }
}

fn dir(name: &str, entries: Vec<Entry>) -> Entry {
    Entry::Directory { name: name.to_string(), listing: Listing::Entries(entries) }
}

fn titles(blogs: &[Blog]) -> Vec<&str> {
    blogs.iter().map(|blog| blog.title()).collect()
}

fn prefixes(blogs: &[Blog]) -> Vec<&str> {
    blogs.iter().map(|blog| blog.prefix()).collect()
}

fn urls(blog: &Blog) -> Vec<&str> {
    blog.posts().iter().map(|post| post.url.as_str()).collect()
}

#[test]
fn a_blog_in_the_base_directory_has_no_prefix() {
    let base = Listing::Entries(vec![manifest_file("Main"), post_file("a.md", "a", 2024)]);
    let blogs = load(&base).unwrap();
    assert_eq!(prefixes(&blogs), [""]);
    assert_eq!(add_postfix_slash(blogs[0].prefix()), "");
}

#[test]
fn a_nested_blog_has_its_path_as_prefix() {
    let bar = dir("bar", vec![manifest_file("Bar"), post_file("a.md", "a", 2024)]);
    let base = Listing::Entries(vec![dir("foo", vec![bar])]);
    let blogs = load(&base).unwrap();
    assert_eq!(prefixes(&blogs), ["foo/bar"]);
    assert_eq!(add_postfix_slash(blogs[0].prefix()), "foo/bar/");
}

#[test]
fn two_directories_give_two_blogs() {
    let a = dir(
        "a",
        vec![manifest_file("A"), post_file("1.md", "a/1", 2024), post_file("2.md", "a/2", 2024)],
    );
    let b = dir("b", vec![post_file("1.md", "b/1", 2023), manifest_file("B")]);
    let blogs = load(&Listing::Entries(vec![a, b])).unwrap();
    assert_eq!(titles(&blogs), ["A", "B"]);
    assert_eq!(prefixes(&blogs), ["a", "b"]);
    assert_eq!(urls(&blogs[0]), ["a/2", "a/1"]);
    assert_eq!(urls(&blogs[1]), ["b/1"]);
}

#[test]
fn blogs_come_in_the_order_of_the_walk() {
    let deep = dir("deep", vec![manifest_file("Deep"), post_file("d.md", "d", 2024)]);
    let first = dir("first", vec![deep, post_file("f.md", "f", 2024), manifest_file("First")]);
    let last = dir("last", vec![manifest_file("Last"), post_file("l.md", "l", 2024)]);
    let base = Listing::Entries(vec![
        post_file("m.md", "m", 2024),
        first,
        manifest_file("Main"),
        last,
    ]);
    let blogs = load(&base).unwrap();
    assert_eq!(titles(&blogs), ["Deep", "First", "Main", "Last"]);
    assert_eq!(prefixes(&blogs), ["first/deep", "first", "", "last"]);
    assert_eq!(urls(&blogs[2]), ["m"]);
}

#[test]
fn a_blog_may_lie_below_a_blog() {
    let inner = dir("inner", vec![manifest_file("Inner"), post_file("i.md", "i", 2024)]);
    let base = Listing::Entries(vec![manifest_file("Outer"), post_file("o.md", "o", 2024), inner]);
    let blogs = load(&base).unwrap();
    assert_eq!(titles(&blogs), ["Outer", "Inner"]);
    assert_eq!(urls(&blogs[0]), ["o"]);
    assert_eq!(urls(&blogs[1]), ["i"]);
}

#[test]
fn directories_without_a_manifest_are_passed_through() {
    let blog = dir("blog", vec![manifest_file("B"), post_file("p.md", "p", 2024)]);
    let base = Listing::Entries(vec![
        dir("assets", vec![post_file("stray.md", "stray", 2024), Entry::Other]),
        dir("group", vec![dir("empty", Vec::new()), blog]),
    ]);
    let blogs = load(&base).unwrap();
    assert_eq!(prefixes(&blogs), ["group/blog"]);
}

#[test]
fn a_tree_without_manifests_has_no_blogs() {
    assert_eq!(load(&Listing::Entries(Vec::new())), Ok(Vec::new()));
    let base = Listing::Entries(vec![
        post_file("a.md", "a", 2024),
        dir("sub", vec![Entry::Other]),
        Entry::File { name: "blog.yaml".to_string(), content: Content::Text("x".to_string()) },
    ]);
    assert_eq!(load(&base), Ok(Vec::new()));
}

#[test]
fn a_directory_named_as_a_manifest_is_walked() {
    let odd = dir("blog.yml", vec![manifest_file("Odd"), post_file("p.md", "p", 2024)]);
    let blogs = load(&Listing::Entries(vec![odd])).unwrap();
    assert_eq!(prefixes(&blogs), ["blog.yml"]);
}

#[test]
fn a_malformed_manifest_fails_the_whole_load() {
    let good = dir("good", vec![manifest_file("Good"), post_file("p.md", "p", 2024)]);
    let bad = dir(
        "bad",
        vec![
            Entry::File {
                name: "blog.yml".to_string(),
                content: Content::Text("title: only a title\n".to_string()),
            },
            post_file("p.md", "p", 2024),
        ],
    );
    let expected = LoadError {
        dir: "bad".to_string(),
        fault: Fault::Manifest(ManifestError::Absent(Field::IndexTitle)),
    };
    assert_eq!(load(&Listing::Entries(vec![good, bad])), Err(expected));
}

#[test]
fn a_malformed_manifest_fails_the_load_before_its_sibling() {
    let good = dir("good", vec![manifest_file("Good"), post_file("p.md", "p", 2024)]);
    let bad = dir(
        "bad",
        vec![
            Entry::File {
                name: "blog.yml".to_string(),
                content: Content::Text("title: T\nextra: x\n".to_string()),
            },
            post_file("p.md", "p", 2024),
        ],
    );
    let found = load(&Listing::Entries(vec![bad, good]));
    assert!(matches!(
        found,
        Err(LoadError { fault: Fault::Manifest(ManifestError::UnknownKey(_)), .. })
    ));
}

#[test]
fn a_blog_without_posts_fails_the_whole_load() {
    let good = dir("good", vec![manifest_file("Good"), post_file("p.md", "p", 2024)]);
    let empty = dir("empty", vec![manifest_file("Empty"), dir("drafts", Vec::new())]);
    let expected = LoadError { dir: "empty".to_string(), fault: Fault::EmptyBlog };
    assert_eq!(load(&Listing::Entries(vec![good, empty])), Err(expected));
}

#[test]
fn a_base_directory_that_cannot_be_listed_fails() {
    let expected = LoadError { dir: String::new(), fault: Fault::Io("not found".to_string()) };
    assert_eq!(load(&Listing::Failed("not found".to_string())), Err(expected));
}

#[test]
fn a_directory_that_cannot_be_listed_fails_the_load() {
    let good = dir("good", vec![manifest_file("Good"), post_file("p.md", "p", 2024)]);
    let locked = Entry::Directory {
        name: "locked".to_string(),
        listing: Listing::Failed("permission denied".to_string()),
    };
    let base = Listing::Entries(vec![good, dir("group", vec![locked])]);
    let expected =
        LoadError { dir: "group/locked".to_string(), fault: Fault::Io("permission denied".to_string()) };
    assert_eq!(load(&base), Err(expected));
}

#[test]
fn an_unreadable_entry_fails_the_load() {
    let sub = dir("sub", vec![Entry::Other, Entry::Unreadable { message: "broken link".to_string() }]);
    let expected = LoadError { dir: "sub".to_string(), fault: Fault::Io("broken link".to_string()) };
    assert_eq!(load(&Listing::Entries(vec![sub])), Err(expected));
}

#[test]
fn the_first_failure_of_the_walk_is_reported() {
    let first = dir("first", vec![manifest_file("First")]);
    let second = dir("second", vec![Entry::Unreadable { message: "later".to_string() }]);
    let expected = LoadError { dir: "first".to_string(), fault: Fault::EmptyBlog };
    assert_eq!(load(&Listing::Entries(vec![first, second])), Err(expected));
}

#[test]
fn what_follows_a_manifest_may_fail_its_blog() {
    let base = Listing::Entries(vec![
        post_file("a.md", "a", 2024),
        manifest_file("Main"),
        Entry::Unreadable { message: "behind".to_string() },
    ]);
    let expected = LoadError { dir: String::new(), fault: Fault::Io("behind".to_string()) };
    assert_eq!(load(&base), Err(expected));
}

#[test]
fn found_blogs_are_added_to_those_at_hand() {
    let entries = vec![
        manifest_file("Here"),
        post_file("a.md", "a", 2024),
        dir("sub", vec![manifest_file("Below"), post_file("b.md", "b", 2024)]),
    ];
    let mut blogs = Vec::new();
    assert_eq!(load_recursive("top", &entries, &mut blogs), Ok(()));
    assert_eq!(load_recursive("other", &entries, &mut blogs), Ok(()));
    assert_eq!(titles(&blogs), ["Here", "Below", "Here", "Below"]);
    assert_eq!(prefixes(&blogs), ["top", "top/sub", "other", "other/sub"]);
}

#[test]
fn blogs_found_before_a_failure_stay_at_hand() {
    let entries = vec![
        dir("ok", vec![manifest_file("Ok"), post_file("a.md", "a", 2024)]),
        Entry::Unreadable { message: "then this".to_string() },
        dir("never", vec![manifest_file("Never"), post_file("b.md", "b", 2024)]),
    ];
    let mut blogs = Vec::new();
    let expected = LoadError { dir: String::new(), fault: Fault::Io("then this".to_string()) };
    assert_eq!(load_recursive("", &entries, &mut blogs), Err(expected));
    assert_eq!(titles(&blogs), ["Ok"]);
}
