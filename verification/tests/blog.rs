use blogs::add_postfix_slash;
use blogs::manifest::Field;
use blogs::Blog;
use blogs::Content;
use blogs::Entry;
use blogs::Fault;
use blogs::Listing;
use blogs::LoadError;
use blogs::Manifest;
use blogs::ManifestError;
use blogs::Post;

const MANIFEST: &str = "title: The Inside Blog
index-title: Inside
description: Notes from within
maintained-by: the insiders
requires-team: true
";

fn post(url: &str, year: i32) -> Post {
    Post { url: url.to_string(), year, show_year: false }
}

fn manifest() -> Manifest {
    Manifest {
        title: "T".to_string(),
        index_title: "I".to_string(),
        description: "D".to_string(),
        maintained_by: "M".to_string(),
        requires_team: false,
    }
}

fn manifest_file(text: &str) -> Entry {
    Entry::File { name: "blog.yml".to_string(), content: Content::Text(text.to_string()) }
}

fn post_file(name: &str, url: &str, year: i32) -> Entry {
    Entry::File { name: name.to_string(), content: Content::Post(post(url, year)) }
}

fn plain_file(name: &str) -> Entry {
    Entry::File { name: name.to_string(), content: Content::Unread }
}

fn urls(blog: &Blog) -> Vec<&str> {
    blog.posts().iter().map(|post| post.url.as_str()).collect()
}

fn marks(blog: &Blog) -> Vec<bool> {
    blog.posts().iter().map(|post| post.show_year).collect()
}

fn fault(dir: &str, fault: Fault) -> LoadError {
    LoadError { dir: dir.to_string(), fault }
}

#[test]
fn a_blog_is_assembled() {
    let posts = vec![post("2023-a", 2023), post("2024-b", 2024), post("2024-a", 2024)];
    let blog = Blog::assemble("inside".to_string(), manifest(), posts).unwrap();
    assert_eq!(blog.title(), "T");
    assert_eq!(blog.index_title(), "I");
    assert_eq!(blog.description(), "D");
    assert_eq!(blog.maintained_by(), "M");
    assert_eq!(blog.prefix(), "inside");
    assert_eq!(
        blog.posts(),
        [
            Post { url: "2024-b".to_string(), year: 2024, show_year: true },
            Post { url: "2024-a".to_string(), year: 2024, show_year: false },
            Post { url: "2023-a".to_string(), year: 2023, show_year: true },
        ]
    );
}

#[test]
fn years_are_grouped_in_a_blog() {
    let years = [2024, 2024, 2023, 2023, 2023, 2022];
    let posts: Vec<Post> =
        years.iter().enumerate().map(|(i, year)| post(&format!("{year}-{}", 9 - i), *year)).collect();
    let blog = Blog::assemble(String::new(), manifest(), posts).unwrap();
    let kept: Vec<i32> = blog.posts().iter().map(|post| post.year).collect();
    assert_eq!(kept, years);
    assert_eq!(marks(&blog), [true, false, true, false, false, true]);
}

#[test]
fn the_year_shows_after_every_change() {
    let posts = vec![post("d", 2020), post("c", 2021), post("b", 2020), post("a", 2020)];
    let blog = Blog::assemble(String::new(), manifest(), posts).unwrap();
    assert_eq!(urls(&blog), ["d", "c", "b", "a"]);
    assert_eq!(marks(&blog), [true, true, true, false]);
}

#[test]
fn marks_of_the_loader_are_dropped() {
    let posts = vec![
        Post { url: "b".to_string(), year: 2020, show_year: false },
        Post { url: "a".to_string(), year: 2020, show_year: true },
    ];
    let blog = Blog::assemble(String::new(), manifest(), posts).unwrap();
    assert_eq!(marks(&blog), [true, false]);
}

#[test]
fn no_blog_without_a_post() {
    assert_eq!(
        Blog::assemble("empty".to_string(), manifest(), Vec::new()),
        Err(fault("empty", Fault::EmptyBlog))
    );
}

#[test]
fn a_blog_is_loaded_from_its_directory() {
    let entries = vec![
        post_file("2023-01-01-first.md", "2023/01/01/first", 2023),
        plain_file("README.txt"),
        manifest_file(MANIFEST),
        Entry::Directory { name: "images".to_string(), listing: Listing::Entries(Vec::new()) },
        post_file("2024-05-05-third.md", "2024/05/05/third", 2024),
        Entry::Other,
        post_file("2023-07-07-second.md", "2023/07/07/second", 2023),
    ];
    let blog = Blog::load("inside/rust".to_string(), &entries).unwrap();
    assert_eq!(blog.title(), "The Inside Blog");
    assert_eq!(blog.index_title(), "Inside");
    assert_eq!(blog.description(), "Notes from within");
    assert_eq!(blog.maintained_by(), "the insiders");
    assert_eq!(blog.prefix(), "inside/rust");
    assert_eq!(urls(&blog), ["2024/05/05/third", "2023/07/07/second", "2023/01/01/first"]);
    assert_eq!(marks(&blog), [true, true, false]);
}

#[test]
fn only_files_with_the_extension_hold_posts() {
    let entries = vec![
        manifest_file(MANIFEST),
        post_file("real.md", "real", 2024),
        post_file("draft.md.bak", "draft", 2024),
        post_file("notes.txt", "notes", 2024),
        post_file(".md", "hidden", 2024),
        post_file("md", "bare", 2024),
        post_file("shout.MD", "shout", 2024),
    ];
    let blog = Blog::load(String::new(), &entries).unwrap();
    assert_eq!(urls(&blog), ["real"]);
}

#[test]
fn posts_below_the_directory_are_not_taken() {
    let nested = vec![post_file("deep.md", "deep", 2024)];
    let entries = vec![
        manifest_file(MANIFEST),
        post_file("top.md", "top", 2024),
        Entry::Directory { name: "drafts.md".to_string(), listing: Listing::Entries(nested) },
    ];
    let blog = Blog::load(String::new(), &entries).unwrap();
    assert_eq!(urls(&blog), ["top"]);
}

#[test]
fn a_directory_that_cannot_be_listed_does_not_stop_its_parent() {
    let entries = vec![
        manifest_file(MANIFEST),
        post_file("top.md", "top", 2024),
        Entry::Directory { name: "locked".to_string(), listing: Listing::Failed("denied".to_string()) },
    ];
    assert!(Blog::load(String::new(), &entries).is_ok());
}

#[test]
fn a_directory_without_posts_is_no_blog() {
    let entries = vec![manifest_file(MANIFEST), plain_file("README.txt")];
    assert_eq!(Blog::load("news".to_string(), &entries), Err(fault("news", Fault::EmptyBlog)));
    let entries = vec![manifest_file(MANIFEST)];
    assert_eq!(Blog::load(String::new(), &entries), Err(fault("", Fault::EmptyBlog)));
}

#[test]
fn a_directory_without_a_manifest_is_no_blog() {
    let entries = vec![post_file("a.md", "a", 2024)];
    assert_eq!(
        Blog::load("x".to_string(), &entries),
        Err(fault("x", Fault::Manifest(ManifestError::NoFile)))
    );
    let lookalike = Entry::Directory {
        name: "blog.yml".to_string(),
        listing: Listing::Entries(Vec::new()),
    };
    assert_eq!(
        Blog::load("x".to_string(), &vec![lookalike, post_file("a.md", "a", 2024)]),
        Err(fault("x", Fault::Manifest(ManifestError::NoFile)))
    );
}

#[test]
fn an_unreadable_manifest_is_reported() {
    let unreadable = Entry::File {
        name: "blog.yml".to_string(),
        content: Content::Failed("permission denied".to_string()),
    };
    assert_eq!(
        Blog::load("x".to_string(), &vec![unreadable, post_file("a.md", "a", 2024)]),
        Err(fault("x", Fault::Manifest(ManifestError::Unreadable("permission denied".to_string()))))
    );
}

#[test]
fn a_manifest_that_was_not_read_is_reported() {
    let unread = Entry::File { name: "blog.yml".to_string(), content: Content::Unread };
    assert_eq!(
        Blog::load("x".to_string(), &vec![unread, post_file("a.md", "a", 2024)]),
        Err(fault("x", Fault::Manifest(ManifestError::Unreadable(String::new()))))
    );
    let as_post = Entry::File { name: "blog.yml".to_string(), content: Content::Post(post("p", 1)) };
    assert_eq!(
        Blog::load("x".to_string(), &vec![as_post, post_file("a.md", "a", 2024)]),
        Err(fault("x", Fault::Manifest(ManifestError::Unreadable(String::new()))))
    );
}

#[test]
fn a_malformed_manifest_is_reported() {
    let entries = vec![
        post_file("a.md", "a", 2024),
        manifest_file("title: T\nindex-title: I\ndescription: D\nmaintained-by: M\n"),
    ];
    assert_eq!(
        Blog::load("x".to_string(), &entries),
        Err(fault("x", Fault::Manifest(ManifestError::Absent(Field::RequiresTeam))))
    );
    let entries = vec![manifest_file(": : :"), post_file("a.md", "a", 2024)];
    assert!(matches!(
        Blog::load("x".to_string(), &entries),
        Err(LoadError { fault: Fault::Manifest(ManifestError::Syntax(_)), .. })
    ));
}

#[test]
fn the_first_manifest_file_counts() {
    let entries = vec![
        manifest_file(MANIFEST),
        manifest_file("not: a manifest"),
        post_file("a.md", "a", 2024),
    ];
    assert_eq!(Blog::load(String::new(), &entries).unwrap().title(), "The Inside Blog");
}

#[test]
fn a_post_that_failed_to_load_is_fatal() {
    let entries = vec![
        manifest_file(MANIFEST),
        post_file("a.md", "a", 2024),
        Entry::File { name: "b.md".to_string(), content: Content::Failed("no front matter".to_string()) },
        post_file("c.md", "c", 2024),
    ];
    assert_eq!(
        Blog::load("x".to_string(), &entries),
        Err(fault(
            "x",
            Fault::Post { file: "b.md".to_string(), message: "no front matter".to_string() }
        ))
    );
}

#[test]
fn a_post_that_was_not_loaded_is_fatal() {
    let entries = vec![manifest_file(MANIFEST), plain_file("a.md")];
    assert_eq!(
        Blog::load("x".to_string(), &entries),
        Err(fault("x", Fault::Post { file: "a.md".to_string(), message: String::new() }))
    );
    let as_text = Entry::File { name: "a.md".to_string(), content: Content::Text("# A".to_string()) };
    assert_eq!(
        Blog::load("x".to_string(), &vec![manifest_file(MANIFEST), as_text]),
        Err(fault("x", Fault::Post { file: "a.md".to_string(), message: String::new() }))
    );
}

#[test]
fn an_entry_that_could_not_be_read_is_fatal() {
    let entries = vec![
        manifest_file(MANIFEST),
        post_file("a.md", "a", 2024),
        Entry::Unreadable { message: "stale handle".to_string() },
    ];
    assert_eq!(
        Blog::load("x".to_string(), &entries),
        Err(fault("x", Fault::Io("stale handle".to_string())))
    );
}

#[test]
fn the_manifest_is_checked_before_the_posts() {
    let entries = vec![
        Entry::Unreadable { message: "stale handle".to_string() },
        Entry::File { name: "a.md".to_string(), content: Content::Failed("bad".to_string()) },
        manifest_file("[]"),
    ];
    assert_eq!(
        Blog::load("x".to_string(), &entries),
        Err(fault("x", Fault::Manifest(ManifestError::NotAMapping)))
    );
}

#[test]
fn the_first_failing_entry_decides() {
    let entries = vec![
        manifest_file(MANIFEST),
        Entry::File { name: "a.md".to_string(), content: Content::Failed("first".to_string()) },
        Entry::Unreadable { message: "second".to_string() },
    ];
    assert_eq!(
        Blog::load("x".to_string(), &entries),
        Err(fault("x", Fault::Post { file: "a.md".to_string(), message: "first".to_string() }))
    );
    let entries = vec![
        manifest_file(MANIFEST),
        Entry::Unreadable { message: "first".to_string() },
        Entry::File { name: "a.md".to_string(), content: Content::Failed("second".to_string()) },
    ];
    assert_eq!(
        Blog::load("x".to_string(), &entries),
        Err(fault("x", Fault::Io("first".to_string())))
    );
}

#[test]
fn a_failure_comes_before_the_want_of_posts() {
    let entries = vec![manifest_file(MANIFEST), Entry::Unreadable { message: "gone".to_string() }];
    assert_eq!(
        Blog::load("x".to_string(), &entries),
        Err(fault("x", Fault::Io("gone".to_string())))
    );
}

#[test]
fn posts_with_one_url_keep_the_later_first() {
    let entries = vec![
        manifest_file(MANIFEST),
        post_file("a.md", "same", 2001),
        post_file("b.md", "same", 2002),
        post_file("c.md", "other", 2003),
        post_file("d.md", "same", 2004),
    ];
    let blog = Blog::load(String::new(), &entries).unwrap();
    assert_eq!(urls(&blog), ["same", "same", "same", "other"]);
    let years: Vec<i32> = blog.posts().iter().map(|post| post.year).collect();
    assert_eq!(years, [2004, 2002, 2001, 2003]);
    assert_eq!(marks(&blog), [true, true, true, true]);
}

#[test]
fn entries_tell_what_they_name() {
    assert!(manifest_file("").names_manifest());
    assert!(!plain_file("blog.yaml").names_manifest());
    assert!(!plain_file("Blog.yml").names_manifest());
    assert!(!Entry::Other.names_manifest());
    let dir = Entry::Directory { name: "blog.yml".to_string(), listing: Listing::Entries(Vec::new()) };
    assert!(!dir.names_manifest());
    assert!(plain_file("a.md").names_post());
    assert!(!plain_file("blog.yml").names_post());
    assert!(!Entry::Unreadable { message: "a.md".to_string() }.names_post());
    let dir = Entry::Directory { name: "a.md".to_string(), listing: Listing::Entries(Vec::new()) };
    assert!(!dir.names_post());
}

#[test]
fn the_slash_follows_a_prefix() {
    assert_eq!(add_postfix_slash("foo/bar"), "foo/bar/");
    assert_eq!(add_postfix_slash("inside-rust"), "inside-rust/");
    assert_eq!(add_postfix_slash("/"), "//");
}

#[test]
fn the_empty_prefix_gets_no_slash() {
    assert_eq!(add_postfix_slash(""), "");
}
