//! A blog: the fields of its manifest, its place in the tree, and its posts in the order in
//! which they are listed.

use crate::manifest::manifest_in;
use crate::manifest::Manifest;
use crate::manifest::ManifestError;
use crate::manifest::ManifestErrorView;
use crate::manifest::ManifestView;
use crate::outcome::result_view;
use crate::post::arrange;
use crate::post::arranged;
use crate::post::descending;
use crate::post::distinct_urls;
use crate::post::lemma_arranged;
use crate::post::mark_years;
use crate::post::strictly_descending;
use crate::post::year_marked;
use crate::post::Post;
use crate::post::PostView;
use crate::text::text_lt;
use crate::tree::Content;
use crate::tree::Entry;
use vstd::prelude::*;
use vstd::string::StringExecFns;

verus! {

/// What went wrong in a directory.
#[derive(Clone, Debug, PartialEq, Eq)]
pub enum Fault {
    /// The directory could not be listed, or one of its entries could not be read. The
    /// message says why.
    Io(String),
    /// The directory's manifest gives no manifest.
    Manifest(ManifestError),
    /// The file of this name has the extension of a post and gave no post. The message says
    /// why; it is empty where the file was not opened for a post.
    Post { file: String, message: String },
    /// The directory has a manifest and no post.
    EmptyBlog,
}

/// What a [`Fault`] stands for.
pub enum FaultView {
    Io(Seq<char>),
    Manifest(ManifestErrorView),
    Post { file: Seq<char>, message: Seq<char> },
    EmptyBlog,
}

impl View for Fault {
    type V = FaultView;

    open spec fn view(&self) -> FaultView {
        match self {
            Fault::Io(message) => FaultView::Io(message@),
            Fault::Manifest(error) => FaultView::Manifest(error@),
            Fault::Post { file, message } => FaultView::Post { file: file@, message: message@ },
            Fault::EmptyBlog => FaultView::EmptyBlog,
        }
    }
}

/// Why loading gave nothing: what went wrong, and in which directory.
#[derive(Clone, Debug, PartialEq, Eq)]
pub struct LoadError {
    /// The path of the directory, relative to the base directory.
    pub dir: String,
    pub fault: Fault,
}

/// What a [`LoadError`] stands for.
pub struct LoadErrorView {
    pub dir: Seq<char>,
    pub fault: FaultView,
}

impl View for LoadError {
    type V = LoadErrorView;

    open spec fn view(&self) -> LoadErrorView {
        LoadErrorView { dir: self.dir@, fault: self.fault@ }
    }
}

/// One blog.
#[derive(Debug, PartialEq, Eq)]
pub struct Blog {
    title: String,
    index_title: String,
    description: String,
    maintained_by: String,
    prefix: String,
    posts: Vec<Post>,
}

/// What a [`Blog`] stands for.
pub struct BlogView {
    pub title: Seq<char>,
    pub index_title: Seq<char>,
    pub description: Seq<char>,
    pub maintained_by: Seq<char>,
    /// The path of the blog's directory, relative to the base directory.
    pub prefix: Seq<char>,
    pub posts: Seq<PostView>,
}

impl BlogView {
    /// What holds of the posts of every blog: there is one at least, each post's url sorts
    /// no earlier than that of every post behind it, and a post shows its year where it is
    /// the first or its year is not that of the post before it.
    pub open spec fn well_listed(self) -> bool {
        &&& self.posts.len() > 0
        &&& descending(self.posts)
        &&& self.posts == year_marked(self.posts)
    }
}

impl View for Blog {
    type V = BlogView;

    closed spec fn view(&self) -> BlogView {
        BlogView {
            title: self.title@,
            index_title: self.index_title@,
            description: self.description@,
            maintained_by: self.maintained_by@,
            prefix: self.prefix@,
            posts: self.posts.deep_view(),
        }
    }
}

impl DeepView for Blog {
    type V = BlogView;

    open spec fn deep_view(&self) -> BlogView {
        self@
    }
}

/// What an entry gives to the posts of its directory.
pub enum Taken {
    /// Nothing: the entry is no file of a post.
    Nothing,
    /// The post that the file holds.
    Post(PostView),
    /// Nothing, and the loading ends.
    Fault(FaultView),
}

/// What an entry gives to the posts of its directory. An entry that could not be read ends
/// the loading. A regular file with the extension of a post gives its post, and ends the
/// loading where it holds none. Every other entry gives nothing.
pub open spec fn taken_from(entry: Entry) -> Taken {
    match entry {
        Entry::Unreadable { message } => Taken::Fault(FaultView::Io(message@)),
        Entry::File { name, content } => if entry.is_post_file() {
            match content {
                Content::Post(post) => Taken::Post(post@),
                Content::Failed(message) => Taken::Fault(
                    FaultView::Post { file: name@, message: message@ },
                ),
                _ => Taken::Fault(FaultView::Post { file: name@, message: Seq::empty() }),
            }
        } else {
            Taken::Nothing
        },
        _ => Taken::Nothing,
    }
}

/// The posts that the first `k` entries give, in the order of the entries, or what ended the
/// loading at the first entry that did.
pub open spec fn collected(entries: Seq<Entry>, k: nat) -> Result<Seq<PostView>, FaultView>
    decreases k,
{
    if k == 0 || k > entries.len() {
        Ok(Seq::empty())
    } else {
        match collected(entries, (k - 1) as nat) {
            Err(fault) => Err(fault),
            Ok(posts) => match taken_from(entries[k - 1]) {
                Taken::Nothing => Ok(posts),
                Taken::Post(post) => Ok(posts.push(post)),
                Taken::Fault(fault) => Err(fault),
            },
        }
    }
}

/// Whether the first manifest file among the entries stands at place `i`.
pub open spec fn is_first_manifest(entries: Seq<Entry>, i: int) -> bool {
    &&& 0 <= i < entries.len()
    &&& entries[i].is_manifest()
    &&& forall|j: int| 0 <= j < i ==> !(#[trigger] entries[j]).is_manifest()
}

/// The manifest of the directory with these entries: that of its first manifest file. A
/// directory without such a file has none, nor has one of which the file could not be read,
/// or was not read as a text.
pub open spec fn manifest_among(entries: Seq<Entry>) -> Result<ManifestView, ManifestErrorView> {
    if exists|i: int| is_first_manifest(entries, i) {
        let i: int = choose|i: int| is_first_manifest(entries, i);
        match entries[i]->File_content {
            Content::Text(text) => manifest_in(text@),
            Content::Failed(message) => Err(ManifestErrorView::Unreadable(message@)),
            _ => Err(ManifestErrorView::Unreadable(Seq::empty())),
        }
    } else {
        Err(ManifestErrorView::NoFile)
    }
}

/// The blog at `prefix` with this manifest and these posts, in the order in which they were
/// found. Without a post there is no blog.
pub open spec fn blog_of(prefix: Seq<char>, manifest: ManifestView, posts: Seq<PostView>) -> Result<
    BlogView,
    LoadErrorView,
> {
    if posts.len() == 0 {
        Err(LoadErrorView { dir: prefix, fault: FaultView::EmptyBlog })
    } else {
        Ok(
            BlogView {
                title: manifest.title,
                index_title: manifest.index_title,
                description: manifest.description,
                maintained_by: manifest.maintained_by,
                prefix,
                posts: year_marked(arranged(posts)),
            },
        )
    }
}

/// The blog of the directory at `prefix` with these entries. What is wrong with the manifest
/// comes first, then what ended the collecting of the posts, then the want of a post.
pub open spec fn loaded(prefix: Seq<char>, entries: Seq<Entry>) -> Result<BlogView, LoadErrorView> {
    match manifest_among(entries) {
        Err(error) => Err(LoadErrorView { dir: prefix, fault: FaultView::Manifest(error) }),
        Ok(manifest) => match collected(entries, entries.len()) {
            Err(fault) => Err(LoadErrorView { dir: prefix, fault }),
            Ok(posts) => blog_of(prefix, manifest, posts),
        },
    }
}

/// What ended the collecting of posts goes on to end it, whatever entries follow.
pub proof fn lemma_collected_fault_stays(entries: Seq<Entry>, k: nat, l: nat)
    requires
        k <= l <= entries.len(),
        collected(entries, k) is Err,
    ensures
        collected(entries, l) == collected(entries, k),
    decreases l,
{
    if k < l {
        lemma_collected_fault_stays(entries, k, (l - 1) as nat);
    }
}

/// Entries among which no file has the extension of a post give no post.
pub proof fn lemma_collected_nothing(entries: Seq<Entry>, k: nat)
    requires
        k <= entries.len(),
        forall|i: int| 0 <= i < entries.len() ==> !(#[trigger] entries[i]).is_post_file(),
    ensures
        collected(entries, k) matches Ok(posts) ==> posts.len() == 0,
    decreases k,
{
    if k > 0 {
        lemma_collected_nothing(entries, (k - 1) as nat);
        assert(!entries[k - 1].is_post_file());
    }
}

/// A directory without a file that has the extension of a post gives no blog, whatever its
/// manifest holds.
pub proof fn lemma_no_post_no_blog(prefix: Seq<char>, entries: Seq<Entry>)
    requires
        forall|i: int| 0 <= i < entries.len() ==> !(#[trigger] entries[i]).is_post_file(),
    ensures
        loaded(prefix, entries) is Err,
{
    lemma_collected_nothing(entries, entries.len());
}

/// The posts of a blog are well listed, and where no two of the posts found share a url,
/// their urls descend strictly.
pub proof fn lemma_blog_of(prefix: Seq<char>, manifest: ManifestView, posts: Seq<PostView>)
    ensures
        blog_of(prefix, manifest, posts) matches Ok(blog) ==> blog.well_listed()
            && blog.posts.len() == posts.len() && (distinct_urls(posts) ==> strictly_descending(
            blog.posts,
        )),
{
    if posts.len() > 0 {
        let listed = arranged(posts);
        let marked = year_marked(listed);
        lemma_arranged(posts);
        assert forall|i: int, j: int| 0 <= i < j < marked.len() implies !text_lt(
            marked[i].url,
            marked[j].url,
        ) by {
            assert(marked[i].url == listed[i].url);
            assert(marked[j].url == listed[j].url);
        }
        assert(marked =~= year_marked(marked));
        if distinct_urls(posts) {
            assert forall|i: int, j: int| 0 <= i < j < marked.len() implies text_lt(
                marked[j].url,
                marked[i].url,
            ) by {
                assert(marked[i].url == listed[i].url);
                assert(marked[j].url == listed[j].url);
            }
        }
    }
}

/// The blog of a directory is well listed, and where no two of the directory's posts share a
/// url, the urls of its posts descend strictly.
pub proof fn lemma_loaded_well_listed(prefix: Seq<char>, entries: Seq<Entry>)
    ensures
        loaded(prefix, entries) matches Ok(blog) ==> blog.well_listed() && (collected(
            entries,
            entries.len(),
        ) matches Ok(posts) && (distinct_urls(posts) ==> strictly_descending(blog.posts))),
{
    if let Ok(manifest) = manifest_among(entries) {
        if let Ok(posts) = collected(entries, entries.len()) {
            lemma_blog_of(prefix, manifest, posts);
        }
    }
}

impl Blog {
    #[verifier::type_invariant]
    spec fn listed(self) -> bool {
        self@.well_listed()
    }

    /// Makes the blog at `prefix` of a manifest and of the posts found in its directory.
    pub fn assemble(prefix: String, manifest: Manifest, posts: Vec<Post>) -> (made: Result<
        Blog,
        LoadError,
    >)
        ensures
            result_view(made) == blog_of(prefix@, manifest@, posts.deep_view()),
            made is Ok <==> posts.len() > 0,
            made matches Ok(blog) ==> blog@.well_listed(),
            made matches Ok(blog) ==> (distinct_urls(posts.deep_view()) ==> strictly_descending(
                blog@.posts,
            )),
    {
        proof {
            lemma_blog_of(prefix@, manifest@, posts.deep_view());
        }
        if posts.len() == 0 {
            return Err(LoadError { dir: prefix, fault: Fault::EmptyBlog });
        }
        let posts = mark_years(arrange(posts));
        Ok(
            Blog {
                title: manifest.title,
                index_title: manifest.index_title,
                description: manifest.description,
                maintained_by: manifest.maintained_by,
                prefix,
                posts,
            },
        )
    }

    /// Loads the blog of the directory at `prefix` with these entries.
    pub fn load(prefix: String, entries: &Vec<Entry>) -> (made: Result<Blog, LoadError>)
        ensures
            result_view(made) == loaded(prefix@, entries@),
            made matches Ok(blog) ==> blog@.well_listed(),
            made matches Ok(blog) ==> (collected(entries@, entries@.len()) matches Ok(posts)
                && (distinct_urls(posts) ==> strictly_descending(blog@.posts))),
            (forall|i: int| 0 <= i < entries.len() ==> !(#[trigger] entries@[i]).is_post_file())
                ==> made is Err,
    {
        proof {
            lemma_loaded_well_listed(prefix@, entries@);
            if forall|i: int| 0 <= i < entries.len() ==> !(#[trigger] entries@[i]).is_post_file() {
                lemma_no_post_no_blog(prefix@, entries@);
            }
        }
        let mut at: usize = 0;
        while at < entries.len() && !entries[at].names_manifest()
            invariant
                at <= entries.len(),
                forall|j: int| 0 <= j < at ==> !(#[trigger] entries@[j]).is_manifest(),
            decreases entries.len() - at,
        {
            at += 1;
        }
        if at == entries.len() {
            assert(!exists|i: int| is_first_manifest(entries@, i));
            return Err(LoadError { dir: prefix, fault: Fault::Manifest(ManifestError::NoFile) });
        }
        proof {
            assert(is_first_manifest(entries@, at as int));
            let i: int = choose|i: int| is_first_manifest(entries@, i);
            assert(i == at);
        }
        let read = match &entries[at] {
            Entry::File { content, .. } => match content {
                Content::Text(text) => Manifest::parse(text.as_str()),
                Content::Failed(message) => Err(ManifestError::Unreadable(message.clone())),
                _ => Err(ManifestError::Unreadable(String::new())),
            },
            _ => Err(ManifestError::NoFile),
        };
        let manifest = match read {
            Ok(manifest) => manifest,
            Err(error) => {
                return Err(LoadError { dir: prefix, fault: Fault::Manifest(error) });
            },
        };
        let mut posts: Vec<Post> = Vec::new();
        let mut k: usize = 0;
        assert(manifest_among(entries@) == Ok::<ManifestView, ManifestErrorView>(manifest@));
        assert(posts.deep_view() =~= Seq::empty());
        while k < entries.len()
            invariant
                k <= entries.len(),
                manifest_among(entries@) == Ok::<ManifestView, ManifestErrorView>(manifest@),
                collected(entries@, k as nat) == Ok::<Seq<PostView>, FaultView>(posts.deep_view()),
            decreases entries.len() - k,
        {
            let ghost before = posts.deep_view();
            let fault = match &entries[k] {
                Entry::Unreadable { message } => Some(Fault::Io(message.clone())),
                Entry::File { name, content } => if entries[k].names_post() {
                    match content {
                        Content::Post(post) => {
                            posts.push(post.duplicate());
                            None
                        },
                        Content::Failed(message) => Some(
                            Fault::Post { file: name.clone(), message: message.clone() },
                        ),
                        _ => Some(Fault::Post { file: name.clone(), message: String::new() }),
                    }
                } else {
                    None
                },
                _ => None,
            };
            proof {
                match taken_from(entries@[k as int]) {
                    Taken::Post(post) => {
                        assert(posts.deep_view() =~= before.push(post));
                    },
                    _ => {
                        assert(posts.deep_view() =~= before);
                    },
                }
            }
            if let Some(fault) = fault {
                proof {
                    lemma_collected_fault_stays(entries@, (k + 1) as nat, entries@.len());
                }
                return Err(LoadError { dir: prefix, fault });
            }
            k += 1;
        }
        Blog::assemble(prefix, manifest, posts)
    }

    /// The full title.
    pub fn title(&self) -> (title: &str)
        ensures
            title@ == self@.title,
    {
        self.title.as_str()
    }

    /// The title for an index of blogs.
    pub fn index_title(&self) -> (title: &str)
        ensures
            title@ == self@.index_title,
    {
        self.index_title.as_str()
    }

    /// The summary.
    pub fn description(&self) -> (description: &str)
        ensures
            description@ == self@.description,
    {
        self.description.as_str()
    }

    /// Who maintains the blog.
    pub fn maintained_by(&self) -> (maintainer: &str)
        ensures
            maintainer@ == self@.maintained_by,
    {
        self.maintained_by.as_str()
    }

    /// The path of the blog's directory, relative to the base directory. It is empty for a
    /// blog in the base directory itself.
    pub fn prefix(&self) -> (prefix: &str)
        ensures
            prefix@ == self@.prefix,
    {
        self.prefix.as_str()
    }

    /// The posts, in the order in which the blog lists them.
    pub fn posts(&self) -> (posts: &[Post])
        ensures
            posts.deep_view() == self@.posts,
            self@.well_listed(),
    {
        proof {
            use_type_invariant(self);
        }
        self.posts.as_slice()
    }
}

/// The path of a blog's directory as links are made with it: followed by a slash, unless it
/// is empty.
pub open spec fn with_slash(path: Seq<char>) -> Seq<char> {
    if path.len() == 0 {
        path
    } else {
        path.push('/')
    }
}

/// The path of a blog's directory as links are made with it: followed by a slash, unless it
/// is empty.
pub fn add_postfix_slash(path: &str) -> (text: String)
    ensures
        text@ == with_slash(path@),
{
    let mut text = path.to_owned();
    if !path.is_empty() {
        proof {
            reveal_strlit("/");
        }
        text.append("/");
        assert(text@ =~= path@.push('/'));
    }
    text
}

} // verus!
