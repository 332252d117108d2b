//! Loading a tree of blogs.
//!
//! A blog is a directory with a manifest file in it. Its posts are the files with the
//! extension of a post that lie in that directory itself. [`load`] walks through a directory
//! tree and makes a [`Blog`] of every such directory: it reads the manifest, collects the
//! posts, puts them in order by url, the greatest first, and marks the posts at which a
//! listing shows the year. Whatever goes wrong anywhere in the tree, no blog is given.
//!
//! Nothing here touches the disk. The tree comes as a [`Listing`] from whoever read it: the
//! names and kinds of the entries, the text of each manifest file, and the [`Post`] that was
//! loaded from each file of a post.

pub mod blog;
pub mod manifest;
pub mod outcome;
pub mod post;
pub mod text;
pub mod tree;
pub mod walk;
pub mod yaml;

pub use blog::add_postfix_slash;
pub use blog::Blog;
pub use blog::Fault;
pub use blog::LoadError;
pub use manifest::Manifest;
pub use manifest::ManifestError;
pub use post::Post;
pub use tree::Content;
pub use tree::Entry;
pub use tree::Listing;
pub use walk::load;
