//! The walk through a directory tree that finds the blogs.

use crate::blog::lemma_loaded_well_listed;
use crate::blog::loaded;
use crate::blog::Blog;
use crate::blog::BlogView;
use crate::blog::Fault;
use crate::blog::FaultView;
use crate::blog::LoadError;
use crate::blog::LoadErrorView;
use crate::tree::child_path;
use crate::tree::path_in;
use crate::tree::Entry;
use crate::tree::Listing;
use vstd::prelude::*;

verus! {

/// What a walk gave: the blogs that it found before anything went wrong, and what went wrong.
pub struct Walk {
    pub blogs: Seq<BlogView>,
    pub error: Option<LoadErrorView>,
}

/// A walk that found nothing.
pub open spec fn nothing() -> Walk {
    Walk { blogs: Seq::empty(), error: None }
}

/// A walk that ended at once.
pub open spec fn failed(dir: Seq<char>, fault: FaultView) -> Walk {
    Walk { blogs: Seq::empty(), error: Some(LoadErrorView { dir, fault }) }
}

/// The walk through the first `k` entries of the directory at `prefix`, and through all that
/// lies below them. The entries are taken in their order. An entry that could not be read
/// ends the walk, and so does a directory that could not be listed. A directory that could, is
/// walked through before the next entry is taken. A manifest file makes a blog of the
/// directory's entries, of all of them, or ends the walk where they give none. After the walk
/// has ended no entry is taken.
pub open spec fn walked(prefix: Seq<char>, entries: Seq<Entry>, k: nat) -> Walk
    decreases entries, k,
{
    if k == 0 || k > entries.len() {
        nothing()
    } else {
        let before = walked(prefix, entries, (k - 1) as nat);
        if before.error is Some {
            before
        } else {
            let here = match entries[k - 1] {
                Entry::Unreadable { message } => failed(prefix, FaultView::Io(message@)),
                Entry::Directory { name, listing } => match listing {
                    Listing::Failed(message) => failed(
                        child_path(prefix, name@),
                        FaultView::Io(message@),
                    ),
                    Listing::Entries(inner) => walked(
                        child_path(prefix, name@),
                        inner@,
                        inner@.len(),
                    ),
                },
                Entry::File { name, content } => if entries[k - 1].is_manifest() {
                    match loaded(prefix, entries) {
                        Ok(blog) => Walk { blogs: seq![blog], error: None },
                        Err(error) => Walk { blogs: Seq::empty(), error: Some(error) },
                    }
                } else {
                    nothing()
                },
                Entry::Other => nothing(),
            };
            Walk { blogs: before.blogs + here.blogs, error: here.error }
        }
    }
}

/// The blogs of the tree of which this is the listing of the base directory, in the order in
/// which the walk finds them, or what ended the walk.
pub open spec fn found(base: Listing) -> Result<Seq<BlogView>, LoadErrorView> {
    match base {
        Listing::Failed(message) => Err(
            LoadErrorView { dir: Seq::empty(), fault: FaultView::Io(message@) },
        ),
        Listing::Entries(entries) => {
            let walk = walked(Seq::empty(), entries@, entries@.len());
            match walk.error {
                Some(error) => Err(error),
                None => Ok(walk.blogs),
            }
        },
    }
}

/// A walk that has ended stays as it is, whatever entries follow.
pub proof fn lemma_walk_ended(prefix: Seq<char>, entries: Seq<Entry>, k: nat, l: nat)
    requires
        k <= l <= entries.len(),
        walked(prefix, entries, k).error is Some,
    ensures
        walked(prefix, entries, l) == walked(prefix, entries, k),
    decreases l,
{
    if k < l {
        lemma_walk_ended(prefix, entries, k, (l - 1) as nat);
    }
}

/// The directory to which `path` leads from the directory at `prefix` with these entries,
/// by its own path and its entries. Each number of `path` is the place of a directory among
/// the entries of the one before it; the empty `path` leads to the directory itself. A
/// `path` that names no listed directory leads nowhere.
pub open spec fn at_path(prefix: Seq<char>, entries: Seq<Entry>, path: Seq<int>) -> Option<
    (Seq<char>, Seq<Entry>),
>
    decreases path.len(),
{
    if path.len() == 0 {
        Some((prefix, entries))
    } else if 0 <= path[0] < entries.len() {
        match entries[path[0]] {
            Entry::Directory { name, listing } => match listing {
                Listing::Entries(inner) => at_path(
                    child_path(prefix, name@),
                    inner@,
                    path.drop_first(),
                ),
                Listing::Failed(message) => None,
            },
            _ => None,
        }
    } else {
        None
    }
}

/// Whether the entry at place `i` of the directory at `prefix` is one at which a walk ends:
/// an entry that could not be read, a directory that could not be listed, or a manifest file
/// in a directory of which the entries give no blog.
pub open spec fn ends_walk(prefix: Seq<char>, entries: Seq<Entry>, i: int) -> bool {
    &&& 0 <= i < entries.len()
    &&& match entries[i] {
        Entry::Unreadable { message } => true,
        Entry::Directory { name, listing } => listing is Failed,
        Entry::File { name, content } => entries[i].is_manifest() && loaded(prefix, entries) is Err,
        Entry::Other => false,
    }
}

/// Whether `path` leads from the directory at `prefix` to a directory of which the entry at
/// place `i` is one at which a walk ends.
pub open spec fn ends_below(prefix: Seq<char>, entries: Seq<Entry>, path: Seq<int>, i: int) -> bool {
    at_path(prefix, entries, path) matches Some(dir) && ends_walk(dir.0, dir.1, i)
}

/// Whether somewhere in the tree below the directory at `prefix` there is an entry at which
/// a walk ends.
pub open spec fn broken(prefix: Seq<char>, entries: Seq<Entry>) -> bool {
    exists|path: Seq<int>, i: int| ends_below(prefix, entries, path, i)
}

/// The walk through a directory ends early where one of its entries is one at which a walk
/// ends, or a directory of which the walk ends early.
proof fn lemma_walk_ends_at(prefix: Seq<char>, entries: Seq<Entry>, i: int)
    requires
        0 <= i < entries.len(),
        ends_walk(prefix, entries, i) || (entries[i] matches Entry::Directory { name, listing }
            && listing matches Listing::Entries(inner) && walked(
            child_path(prefix, name@),
            inner@,
            inner@.len(),
        ).error is Some),
    ensures
        walked(prefix, entries, entries.len()).error is Some,
{
    assert(walked(prefix, entries, (i + 1) as nat).error is Some);
    lemma_walk_ended(prefix, entries, (i + 1) as nat, entries.len());
}

/// An entry at which a walk ends, anywhere in the tree, ends the walk through the whole
/// tree: no blog of any other directory is given either.
pub proof fn lemma_failure_is_fatal(
    prefix: Seq<char>,
    entries: Seq<Entry>,
    path: Seq<int>,
    i: int,
)
    requires
        ends_below(prefix, entries, path, i),
    ensures
        walked(prefix, entries, entries.len()).error is Some,
    decreases path.len(),
{
    if path.len() == 0 {
        lemma_walk_ends_at(prefix, entries, i);
    } else {
        let first = entries[path[0]];
        let child = child_path(prefix, first->Directory_name@);
        let inner = first->Directory_listing->Entries_0@;
        lemma_failure_is_fatal(child, inner, path.drop_first(), i);
        lemma_walk_ends_at(prefix, entries, path[0]);
    }
}

/// A walk ends early only at an entry at which a walk ends, somewhere in the tree.
pub proof fn lemma_failure_has_a_place(prefix: Seq<char>, entries: Seq<Entry>, k: nat)
    requires
        k <= entries.len(),
        walked(prefix, entries, k).error is Some,
    ensures
        broken(prefix, entries),
    decreases entries, k,
{
    if walked(prefix, entries, (k - 1) as nat).error is Some {
        lemma_failure_has_a_place(prefix, entries, (k - 1) as nat);
    } else if ends_walk(prefix, entries, k - 1) {
        assert(ends_below(prefix, entries, Seq::<int>::empty(), k - 1));
    } else {
        let first = entries[k - 1];
        let child = child_path(prefix, first->Directory_name@);
        let inner = first->Directory_listing->Entries_0@;
        lemma_failure_has_a_place(child, inner, inner.len());
        let (path, i) = choose|path: Seq<int>, i: int| ends_below(child, inner, path, i);
        let longer = seq![k - 1].add(path);
        assert(longer.drop_first() =~= path);
        assert(at_path(prefix, entries, longer) == at_path(child, inner, path));
        assert(ends_below(prefix, entries, longer, i));
    }
}

/// Loading gives the blogs of a tree if and only if the base directory could be listed and
/// nowhere in the tree there is an entry at which a walk ends.
pub proof fn lemma_found(base: Listing)
    ensures
        found(base) is Ok <==> (base matches Listing::Entries(entries) && !broken(
            Seq::empty(),
            entries@,
        )),
{
    if let Listing::Entries(entries) = base {
        if broken(Seq::empty(), entries@) {
            let (path, i) = choose|path: Seq<int>, i: int|
                ends_below(Seq::empty(), entries@, path, i);
            lemma_failure_is_fatal(Seq::empty(), entries@, path, i);
        }
        if found(base) is Err {
            lemma_failure_has_a_place(Seq::empty(), entries@, entries@.len());
        }
    }
}

/// Whether `path` leads from the directory at `prefix` to the directory of which `blog` is the
/// blog.
pub open spec fn is_blog_at(
    prefix: Seq<char>,
    entries: Seq<Entry>,
    path: Seq<int>,
    blog: BlogView,
) -> bool {
    at_path(prefix, entries, path) matches Some(dir) && loaded(dir.0, dir.1) == Ok::<
        BlogView,
        LoadErrorView,
    >(blog) && blog.prefix == dir.0
}

/// Whether `blog` is the blog of one of the directories of the tree of which these are the
/// entries of the base directory.
pub open spec fn has_directory(entries: Seq<Entry>, blog: BlogView) -> bool {
    exists|path: Seq<int>| is_blog_at(Seq::empty(), entries, path, blog)
}

/// Every blog that a walk finds is the blog of one directory of the tree: it is made of the
/// entries of that directory alone, and its prefix is the path of that directory.
pub proof fn lemma_blog_has_a_directory(prefix: Seq<char>, entries: Seq<Entry>, k: nat, i: int)
    requires
        0 <= i < walked(prefix, entries, k).blogs.len(),
    ensures
        exists|path: Seq<int>| is_blog_at(prefix, entries, path, walked(prefix, entries, k).blogs[i]),
    decreases entries, k,
{
    let blog = walked(prefix, entries, k).blogs[i];
    let before = walked(prefix, entries, (k - 1) as nat);
    if i < before.blogs.len() {
        lemma_blog_has_a_directory(prefix, entries, (k - 1) as nat, i);
        let path: Seq<int> = choose|path: Seq<int>| is_blog_at(prefix, entries, path, before.blogs[i]);
        assert(is_blog_at(prefix, entries, path, blog));
    } else {
        match entries[k - 1] {
            Entry::Directory { name, listing } => {
                let child = child_path(prefix, name@);
                let inner = listing->Entries_0@;
                lemma_blog_has_a_directory(child, inner, inner.len(), i - before.blogs.len());
                let path: Seq<int> = choose|path: Seq<int>| is_blog_at(child, inner, path, blog);
                let longer = seq![k - 1].add(path);
                assert(longer.drop_first() =~= path);
                assert(at_path(prefix, entries, longer) == at_path(child, inner, path));
                assert(is_blog_at(prefix, entries, longer, blog));
            },
            _ => {
                assert(is_blog_at(prefix, entries, Seq::<int>::empty(), blog));
            },
        }
    }
}

/// What a walk has found stays found, whatever entries follow.
pub proof fn lemma_walk_grows(prefix: Seq<char>, entries: Seq<Entry>, k: nat, l: nat)
    requires
        k <= l <= entries.len(),
    ensures
        walked(prefix, entries, k).blogs.is_prefix_of(walked(prefix, entries, l).blogs),
        walked(prefix, entries, l).error is None ==> walked(prefix, entries, k).error is None,
    decreases l,
{
    if k < l {
        lemma_walk_grows(prefix, entries, k, (l - 1) as nat);
    }
}

/// Where a walk does not end early, it finds the blog of every directory of the tree that
/// holds a manifest file, however deep the directory lies.
pub proof fn lemma_directory_has_its_blog(
    prefix: Seq<char>,
    entries: Seq<Entry>,
    path: Seq<int>,
    i: int,
)
    requires
        walked(prefix, entries, entries.len()).error is None,
        at_path(prefix, entries, path) matches Some(dir) && 0 <= i < dir.1.len()
            && dir.1[i].is_manifest(),
    ensures
        at_path(prefix, entries, path) matches Some(dir) && loaded(dir.0, dir.1) matches Ok(blog)
            && walked(prefix, entries, entries.len()).blogs.contains(blog),
    decreases path.len(),
{
    let all = walked(prefix, entries, entries.len()).blogs;
    let at: int = if path.len() == 0 { i } else { path[0] };
    let before = walked(prefix, entries, at as nat);
    let after = walked(prefix, entries, (at + 1) as nat);
    lemma_walk_grows(prefix, entries, (at + 1) as nat, entries.len());
    lemma_walk_grows(prefix, entries, at as nat, (at + 1) as nat);
    if path.len() == 0 {
        let blog = loaded(prefix, entries)->Ok_0;
        assert(after.blogs[before.blogs.len() as int] == blog);
        assert(all[before.blogs.len() as int] == blog);
    } else {
        let first = entries[at];
        let child = child_path(prefix, first->Directory_name@);
        let inner = first->Directory_listing->Entries_0@;
        lemma_directory_has_its_blog(child, inner, path.drop_first(), i);
        let dir = at_path(child, inner, path.drop_first())->Some_0;
        let blog = loaded(dir.0, dir.1)->Ok_0;
        let below = walked(child, inner, inner.len()).blogs;
        let j: int = choose|j: int| 0 <= j < below.len() && below[j] == blog;
        assert(after.blogs[before.blogs.len() + j] == blog);
        assert(all[before.blogs.len() + j] == blog);
    }
}

/// Every blog that a walk finds is well listed.
pub proof fn lemma_walked_well_listed(prefix: Seq<char>, entries: Seq<Entry>, k: nat)
    ensures
        forall|i: int|
            0 <= i < walked(prefix, entries, k).blogs.len() ==> (#[trigger] walked(
                prefix,
                entries,
                k,
            ).blogs[i]).well_listed(),
    decreases entries, k,
{
    if 0 < k <= entries.len() {
        lemma_walked_well_listed(prefix, entries, (k - 1) as nat);
        if let Entry::Directory { name, listing } = entries[k - 1] {
            if let Listing::Entries(inner) = listing {
                lemma_walked_well_listed(child_path(prefix, name@), inner@, inner@.len());
            }
        }
        lemma_loaded_well_listed(prefix, entries);
    }
}

/// Walks through the entries of the directory at `prefix`, and adds the blogs that it finds
/// to `blogs`.
pub fn load_recursive(prefix: &str, entries: &Vec<Entry>, blogs: &mut Vec<Blog>) -> (done: Result<
    (),
    LoadError,
>)
    ensures
        final(blogs).deep_view() == old(blogs).deep_view() + walked(
            prefix@,
            entries@,
            entries@.len(),
        ).blogs,
        match done {
            Ok(_) => walked(prefix@, entries@, entries@.len()).error is None,
            Err(error) => walked(prefix@, entries@, entries@.len()).error == Some(error@),
        },
    decreases entries,
{
    let ghost held = blogs.deep_view();
    let mut i: usize = 0;
    assert(blogs.deep_view() =~= held + walked(prefix@, entries@, 0).blogs);
    while i < entries.len()
        invariant
            i <= entries.len(),
            held == old(blogs).deep_view(),
            blogs.deep_view() == held + walked(prefix@, entries@, i as nat).blogs,
            walked(prefix@, entries@, i as nat).error is None,
        decreases entries.len() - i,
    {
        let ghost before = blogs.deep_view();
        let step = match &entries[i] {
            Entry::Unreadable { message } => Err(
                LoadError { dir: prefix.to_owned(), fault: Fault::Io(message.clone()) },
            ),
            Entry::Directory { name, listing } => {
                let child = path_in(prefix, name.as_str());
                match listing {
                    Listing::Failed(message) => Err(
                        LoadError { dir: child, fault: Fault::Io(message.clone()) },
                    ),
                    Listing::Entries(inner) => load_recursive(child.as_str(), inner, blogs),
                }
            },
            Entry::File { .. } => if entries[i].names_manifest() {
                match Blog::load(prefix.to_owned(), entries) {
                    Ok(blog) => {
                        blogs.push(blog);
                        assert(blogs.deep_view() =~= before.push(blog@));
                        Ok(())
                    },
                    Err(error) => Err(error),
                }
            } else {
                Ok(())
            },
            Entry::Other => Ok(()),
        };
        assert(blogs.deep_view() =~= held + walked(prefix@, entries@, (i + 1) as nat).blogs);
        if let Err(error) = step {
            proof {
                lemma_walk_ended(prefix@, entries@, (i + 1) as nat, entries@.len());
            }
            return Err(error);
        }
        i += 1;
    }
    Ok(())
}

/// Loads the blogs of a directory tree, of which `base` is the listing of the base directory.
/// A blog is a directory with a manifest file in it.
pub fn load(base: &Listing) -> (blogs: Result<Vec<Blog>, LoadError>)
    ensures
        match blogs {
            Ok(blogs) => found(*base) == Ok::<Seq<BlogView>, LoadErrorView>(blogs.deep_view()),
            Err(error) => found(*base) == Err::<Seq<BlogView>, LoadErrorView>(error@),
        },
        blogs is Ok <==> (*base matches Listing::Entries(entries) && !broken(
            Seq::empty(),
            entries@,
        )),
        blogs matches Ok(blogs) ==> forall|i: int|
            0 <= i < blogs.len() ==> (#[trigger] blogs.deep_view()[i]).well_listed(),
        blogs matches Ok(blogs) ==> (*base matches Listing::Entries(entries) && forall|i: int|
            0 <= i < blogs.len() ==> has_directory(entries@, #[trigger] blogs.deep_view()[i])),
{
    proof {
        lemma_found(*base);
        if let Listing::Entries(entries) = base {
            lemma_walked_well_listed(Seq::empty(), entries@, entries@.len());
        }
    }
    match base {
        Listing::Failed(message) => Err(
            LoadError { dir: String::new(), fault: Fault::Io(message.clone()) },
        ),
        Listing::Entries(entries) => {
            let mut blogs: Vec<Blog> = Vec::new();
            proof {
                reveal_strlit("");
                assert(""@ =~= Seq::empty());
            }
            assert(blogs.deep_view() =~= Seq::empty());
            match load_recursive("", entries, &mut blogs) {
                Ok(_) => {
                    proof {
                        let found = walked(Seq::empty(), entries@, entries@.len()).blogs;
                        assert(blogs.deep_view() =~= found);
                        assert forall|i: int| 0 <= i < blogs.len() implies has_directory(
                            entries@,
                            #[trigger] blogs.deep_view()[i],
                        ) by {
                            lemma_blog_has_a_directory(Seq::empty(), entries@, entries@.len(), i);
                        }
                    }
                    Ok(blogs)
                },
                Err(error) => Err(error),
            }
        },
    }
}

} // verus!
