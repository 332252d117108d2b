//! What a directory tree holds, as the one who read it from disk hands it over.

use crate::post::Post;
use crate::text::text_equal;
use vstd::prelude::*;
use vstd::string::StringExecFns;

verus! {

/// The name of the file that makes a directory a blog.
pub const MANIFEST_FILE: &'static str = "blog.yml";

/// The extension of the files that hold posts.
pub const POSTS_EXT: &'static str = "md";

/// What was taken out of a regular file.
#[derive(Clone, Debug, PartialEq, Eq)]
pub enum Content {
    /// Nothing: the file was not opened.
    Unread,
    /// The text of the file.
    Text(String),
    /// The post that the file holds.
    Post(Post),
    /// Nothing: reading the file, or loading the post, failed. The message says why.
    Failed(String),
}

/// What listing a directory gave.
#[derive(Debug, PartialEq, Eq)]
pub enum Listing {
    /// The entries, in the order in which the directory gave them.
    Entries(Vec<Entry>),
    /// Nothing: the directory could not be listed. The message says why.
    Failed(String),
}

/// One entry of a directory.
#[derive(Debug, PartialEq, Eq)]
pub enum Entry {
    /// A directory, and what listing it gave.
    Directory { name: String, listing: Listing },
    /// A regular file, and what was taken out of it.
    File { name: String, content: Content },
    /// What is neither a directory nor a regular file.
    Other,
    /// An entry of which the name or the kind could not be read. The message says why.
    Unreadable { message: String },
}

/// Whether the last dot of `name` stands at place `i`.
pub open spec fn is_last_dot(name: Seq<char>, i: int) -> bool {
    &&& 0 <= i < name.len()
    &&& name[i] == '.'
    &&& forall|j: int| i < j < name.len() ==> name[j] != '.'
}

/// The extension of a file name: what follows its last dot. A name without a dot has none,
/// nor has a name of which the only dot is the first character.
pub open spec fn extension(name: Seq<char>) -> Option<Seq<char>> {
    if exists|i: int| 0 < i && is_last_dot(name, i) {
        let i: int = choose|i: int| 0 < i && is_last_dot(name, i);
        Some(name.subrange(i + 1, name.len() as int))
    } else {
        None
    }
}

/// The path of what is called `name` in the directory at `prefix`, relative to the base
/// directory, whose own path is empty.
pub open spec fn child_path(prefix: Seq<char>, name: Seq<char>) -> Seq<char> {
    if prefix.len() == 0 {
        name
    } else {
        prefix + seq!['/'] + name
    }
}

/// What the name of a regular file says that the file holds.
#[derive(Clone, Copy, Debug, PartialEq, Eq, Structural)]
pub enum Role {
    /// The manifest of the directory: the name is that of a manifest.
    Manifest,
    /// A post: the name has the extension of a post.
    Post,
    /// Nothing that a blog is made of.
    Plain,
}

/// What the name of a regular file says that the file holds.
pub open spec fn role(name: Seq<char>) -> Role {
    if name == MANIFEST_FILE@ {
        Role::Manifest
    } else if extension(name) == Some(POSTS_EXT@) {
        Role::Post
    } else {
        Role::Plain
    }
}

/// Tells what the name of a regular file says that the file holds.
pub fn role_of(name: &str) -> (told: Role)
    ensures
        told == role(name@),
{
    if text_equal(name, MANIFEST_FILE) {
        Role::Manifest
    } else if has_extension(name, POSTS_EXT) {
        Role::Post
    } else {
        Role::Plain
    }
}

impl Entry {
    /// Whether the entry is a regular file with the name of a manifest.
    pub open spec fn is_manifest(self) -> bool {
        self matches Entry::File { name, .. } && role(name@) == Role::Manifest
    }

    /// Whether the entry is a regular file with the extension of a post.
    pub open spec fn is_post_file(self) -> bool {
        self matches Entry::File { name, .. } && role(name@) == Role::Post
    }

    /// Tells whether the entry is a regular file with the name of a manifest.
    pub fn names_manifest(&self) -> (is: bool)
        ensures
            is == self.is_manifest(),
    {
        match self {
            Entry::File { name, .. } => role_of(name.as_str()) == Role::Manifest,
            _ => false,
        }
    }

    /// Tells whether the entry is a regular file with the extension of a post.
    pub fn names_post(&self) -> (is: bool)
        ensures
            is == self.is_post_file(),
    {
        match self {
            Entry::File { name, .. } => role_of(name.as_str()) == Role::Post,
            _ => false,
        }
    }
}

/// Tells whether the file name `name` has the extension `wanted`.
pub fn has_extension(name: &str, wanted: &str) -> (has: bool)
    ensures
        has == (extension(name@) == Some(wanted@)),
{
    let n: usize = name.unicode_len();
    let w: usize = wanted.unicode_len();
    if n < 2 || n - 2 < w {
        proof {
            if extension(name@) == Some(wanted@) {
                let i: int = choose|i: int| 0 < i && is_last_dot(name@, i);
                assert(name@.subrange(i + 1, n as int).len() == w);
            }
        }
        return false;
    }
    let dot: usize = n - w - 1;
    if name.get_char(dot) != '.' {
        proof {
            if extension(name@) == Some(wanted@) {
                let i: int = choose|i: int| 0 < i && is_last_dot(name@, i);
                assert(name@.subrange(i + 1, n as int).len() == w);
            }
        }
        return false;
    }
    let mut k: usize = 0;
    while k < w
        invariant
            n == name@.len(),
            w == wanted@.len(),
            n >= w + 2,
            dot == n - w - 1,
            name@[dot as int] == '.',
            k <= w,
            forall|j: int| 0 <= j < k ==> name@[dot + 1 + j] == wanted@[j] && wanted@[j] != '.',
        decreases w - k,
    {
        let c = wanted.get_char(k);
        if c == '.' || name.get_char(dot + 1 + k) != c {
            proof {
                if extension(name@) == Some(wanted@) {
                    let i: int = choose|i: int| 0 < i && is_last_dot(name@, i);
                    let tail = name@.subrange(i + 1, n as int);
                    assert(tail.len() == w);
                    assert(tail[k as int] == name@[dot + 1 + k]);
                }
            }
            return false;
        }
        k += 1;
    }
    proof {
        assert forall|j: int| dot < j < n implies name@[j] != '.' by {
            assert(name@[dot + 1 + (j - dot - 1)] == wanted@[j - dot - 1]);
        }
        assert(is_last_dot(name@, dot as int));
        let i: int = choose|i: int| 0 < i && is_last_dot(name@, i);
        assert(i == dot);
        assert(name@.subrange(i + 1, n as int) =~= wanted@);
    }
    true
}

/// The path of what is called `name` in the directory at `prefix`.
pub fn path_in(prefix: &str, name: &str) -> (path: String)
    ensures
        path@ == child_path(prefix@, name@),
{
    if prefix.is_empty() {
        name.to_owned()
    } else {
        let mut path = prefix.to_owned();
        proof {
            reveal_strlit("/");
        }
        path.append("/");
        path.append(name);
        assert(path@ =~= prefix@ + seq!['/'] + name@);
        path
    }
}

} // verus!
