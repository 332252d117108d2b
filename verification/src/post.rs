//! Posts, the order in which a blog lists them, and the marks that say where a new year
//! begins in that order.

use crate::text::lemma_text_lt_connected;
use crate::text::lemma_text_lt_irreflexive;
use crate::text::lemma_text_lt_transitive;
use crate::text::text_less;
use crate::text::text_lt;
use vstd::prelude::*;
use vstd::relations::sorted_by;
use vstd::relations::total_ordering;
use vstd::seq_lib::lemma_sorted_unique;
use vstd::seq_lib::seq_to_set_is_finite;
use vstd::seq_lib::to_multiset_insert;
use vstd::set_lib::lemma_int_range;
use vstd::set_lib::lemma_subset_equality;
use vstd::set_lib::set_int_range;

verus! {

/// One post of a blog, as far as listing it goes.
#[derive(Clone, Debug, PartialEq, Eq)]
pub struct Post {
    /// The key by which posts are ordered. Within one blog no two posts should share it.
    pub url: String,
    /// The calendar year of the post.
    pub year: i32,
    /// Whether a listing shows the year at this post. The blog sets it; what a post holds
    /// here before it joins a blog does not matter.
    pub show_year: bool,
}

/// What a [`Post`] stands for.
pub struct PostView {
    pub url: Seq<char>,
    pub year: int,
    pub show_year: bool,
}

impl View for Post {
    type V = PostView;

    open spec fn view(&self) -> PostView {
        PostView { url: self.url@, year: self.year as int, show_year: self.show_year }
    }
}

impl DeepView for Post {
    type V = PostView;

    open spec fn deep_view(&self) -> PostView {
        self@
    }
}

impl Post {
    /// A copy of the post.
    pub fn duplicate(&self) -> (copy: Post)
        ensures
            copy@ == self@,
    {
        Post { url: self.url.clone(), year: self.year, show_year: self.show_year }
    }
}

/// The url of the post that was found `i`-th, and the empty text where there is no such post.
pub open spec fn url_at(posts: Seq<PostView>, i: int) -> Seq<char> {
    if 0 <= i < posts.len() {
        posts[i].url
    } else {
        Seq::empty()
    }
}

/// Whether the post found `i`-th is listed no later than the one found `j`-th: its url sorts
/// after the other's, or the two urls are equal and it was found no earlier.
pub open spec fn listed_no_later(posts: Seq<PostView>, i: int, j: int) -> bool {
    ||| text_lt(url_at(posts, j), url_at(posts, i))
    ||| (url_at(posts, i) == url_at(posts, j) && i >= j)
}

/// [`listed_no_later`] as a relation on the places at which posts were found.
pub open spec fn listing_order(posts: Seq<PostView>) -> spec_fn(int, int) -> bool {
    |i: int, j: int| listed_no_later(posts, i, j)
}

/// The places `0`, `1`, ... up to `n`, in ascending order.
pub open spec fn places(n: nat) -> Seq<int> {
    Seq::new(n, |i: int| i)
}

/// The places at which the posts were found, in the order in which a blog lists the posts:
/// by url, the greatest first, and among equal urls the one found last first.
pub open spec fn display_order(posts: Seq<PostView>) -> Seq<int> {
    places(posts.len()).sort_by(listing_order(posts))
}

/// The posts in the order in which a blog lists them.
pub open spec fn arranged(posts: Seq<PostView>) -> Seq<PostView> {
    display_order(posts).map_values(|i: int| posts[i])
}

/// Whether no two of the posts share a url.
pub open spec fn distinct_urls(posts: Seq<PostView>) -> bool {
    forall|i: int, j: int| 0 <= i < j < posts.len() ==> posts[i].url != posts[j].url
}

/// Whether each post's url sorts no earlier than that of every post behind it.
pub open spec fn descending(posts: Seq<PostView>) -> bool {
    forall|i: int, j: int| 0 <= i < j < posts.len() ==> !text_lt(posts[i].url, posts[j].url)
}

/// Whether each post's url sorts strictly after that of every post behind it.
pub open spec fn strictly_descending(posts: Seq<PostView>) -> bool {
    forall|i: int, j: int| 0 <= i < j < posts.len() ==> text_lt(posts[j].url, posts[i].url)
}

/// Whether `order` names each of the places `0` up to `n` exactly once.
pub open spec fn is_permutation(order: Seq<int>, n: nat) -> bool {
    &&& order.len() == n
    &&& forall|k: int| 0 <= k < n ==> 0 <= #[trigger] order[k] < n
    &&& forall|k: int, l: int| 0 <= k < l < n ==> order[k] != order[l]
}

/// The posts with the mark of each set anew: the first post shows its year, and a later one
/// shows it where its year is not that of the post before it.
pub open spec fn year_marked(posts: Seq<PostView>) -> Seq<PostView> {
    Seq::new(
        posts.len(),
        |i: int|
            PostView {
                url: posts[i].url,
                year: posts[i].year,
                show_year: i == 0 || posts[i - 1].year != posts[i].year,
            },
    )
}

/// The order in which posts are listed is a total order of the places.
pub proof fn lemma_listing_order_total(posts: Seq<PostView>)
    ensures
        total_ordering(listing_order(posts)),
{
    let leq = listing_order(posts);
    assert forall|i: int| #[trigger] leq(i, i) by {}
    assert forall|i: int, j: int| #[trigger] leq(i, j) && #[trigger] leq(j, i) implies i == j by {
        let a = url_at(posts, i);
        let b = url_at(posts, j);
        if text_lt(a, b) && text_lt(b, a) {
            lemma_text_lt_transitive(a, b, a);
        }
        lemma_text_lt_irreflexive(a);
    }
    assert forall|i: int, j: int, k: int| #[trigger] leq(i, j) && #[trigger] leq(j, k) implies leq(
        i,
        k,
    ) by {
        let a = url_at(posts, i);
        let b = url_at(posts, j);
        let c = url_at(posts, k);
        if text_lt(b, a) && text_lt(c, b) {
            lemma_text_lt_transitive(c, b, a);
        }
    }
    assert forall|i: int, j: int| #[trigger] leq(i, j) || #[trigger] leq(j, i) by {
        lemma_text_lt_connected(url_at(posts, i), url_at(posts, j));
    }
}

/// An order that holds the places at which posts were found, each as often as the order of
/// finding does, and lists each place no later than those behind it, is the display order.
proof fn lemma_sorted_places(posts: Seq<PostView>, order: Seq<int>)
    requires
        sorted_by(order, listing_order(posts)),
        order.to_multiset() == places(posts.len()).to_multiset(),
    ensures
        order == display_order(posts),
{
    let leq = listing_order(posts);
    lemma_listing_order_total(posts);
    places(posts.len()).lemma_sort_by_ensures(leq);
    lemma_sorted_unique(order, display_order(posts), leq);
}

/// An order that names each of the places `0` up to `n` exactly once holds each of them as
/// often as their ascending order does.
proof fn lemma_permutation_places(order: Seq<int>, n: nat)
    requires
        is_permutation(order, n),
    ensures
        order.to_multiset() == places(n).to_multiset(),
{
    broadcast use vstd::seq_lib::group_to_multiset_ensures;

    let all = set_int_range(0, n as int);
    assert(order.no_duplicates());
    assert(places(n).no_duplicates());
    order.unique_seq_to_set();
    lemma_int_range(0, n as int);
    seq_to_set_is_finite(order);
    assert(order.to_set().subset_of(all)) by {
        assert forall|v: int| order.to_set().contains(v) implies all.contains(v) by {
            let k: int = choose|k: int| 0 <= k < order.len() && order[k] == v;
            assert(0 <= order[k] < n);
        }
    }
    lemma_subset_equality(order.to_set(), all);
    order.lemma_multiset_has_no_duplicates();
    places(n).lemma_multiset_has_no_duplicates();
    assert forall|v: int| order.to_multiset().count(v) == places(n).to_multiset().count(v) by {
        if 0 <= v < n {
            assert(all.contains(v));
            assert(order.to_set().contains(v));
            assert(order.contains(v));
            assert(places(n)[v] == v);
            assert(places(n).contains(v));
        } else {
            if order.contains(v) {
                let k: int = choose|k: int| 0 <= k < order.len() && order[k] == v;
                assert(0 <= order[k] < n);
            }
            assert(!places(n).contains(v));
        }
    }
    assert(order.to_multiset() =~= places(n).to_multiset());
}

/// Only the display order names every place exactly once and lists each place no later than
/// those behind it.
pub proof fn lemma_display_order_unique(posts: Seq<PostView>, order: Seq<int>)
    requires
        is_permutation(order, posts.len()),
        forall|k: int, l: int|
            0 <= k < l < order.len() ==> listed_no_later(posts, order[k], order[l]),
    ensures
        order == display_order(posts),
        arranged(posts) == order.map_values(|i: int| posts[i]),
{
    lemma_permutation_places(order, posts.len());
    assert(sorted_by(order, listing_order(posts))) by {
        let leq = listing_order(posts);
        assert forall|k: int, l: int| 0 <= k < l < order.len() implies #[trigger] leq(
            order[k],
            order[l],
        ) by {
            assert(listed_no_later(posts, order[k], order[l]));
        }
    }
    lemma_sorted_places(posts, order);
}

/// The display order names every place at which a post was found exactly once, and lists
/// each place no later than those behind it.
pub proof fn lemma_display_order(posts: Seq<PostView>)
    ensures
        is_permutation(display_order(posts), posts.len()),
        forall|k: int, l: int|
            0 <= k < l < posts.len() ==> listed_no_later(
                posts,
                #[trigger] display_order(posts)[k],
                #[trigger] display_order(posts)[l],
            ),
{
    broadcast use vstd::seq_lib::group_to_multiset_ensures;

    let n: nat = posts.len();
    let leq = listing_order(posts);
    let order = display_order(posts);
    lemma_listing_order_total(posts);
    places(n).lemma_sort_by_ensures(leq);
    assert(order.len() == n) by {
        assert(order.to_multiset().len() == places(n).to_multiset().len());
    }
    assert forall|k: int| 0 <= k < n implies 0 <= #[trigger] order[k] < n by {
        let x: int = order[k];
        assert(order.contains(x));
        if !(0 <= x < n) {
            assert forall|i: int| 0 <= i < n implies places(n)[i] != x by {}
            assert(!places(n).contains(x));
        }
    }
    assert forall|k: int, l: int| 0 <= k < l < n implies order[k] != order[l] by {
        if order[k] == order[l] {
            let x: int = order[k];
            assert(places(n).no_duplicates());
            places(n).lemma_multiset_has_no_duplicates();
            assert(order.to_multiset().count(x) <= 1);
            order.lemma_multiset_has_no_duplicates_conv();
        }
    }
    assert forall|k: int, l: int| 0 <= k < l < n implies listed_no_later(
        posts,
        #[trigger] order[k],
        #[trigger] order[l],
    ) by {
        assert(leq(order[k], order[l]));
    }
}

/// Whether the post found `i`-th comes no later than the one found `j`-th where posts are
/// sorted by url and posts with equal urls stay in the order of finding.
pub open spec fn sorted_no_later(posts: Seq<PostView>, i: int, j: int) -> bool {
    ||| text_lt(url_at(posts, i), url_at(posts, j))
    ||| (url_at(posts, i) == url_at(posts, j) && i <= j)
}

/// [`sorted_no_later`] as a relation on the places at which posts were found.
pub open spec fn sorting_order(posts: Seq<PostView>) -> spec_fn(int, int) -> bool {
    |i: int, j: int| sorted_no_later(posts, i, j)
}

/// The places at which the posts were found, sorted by url, the least first; posts with equal
/// urls stay in the order of finding.
pub open spec fn sorted_order(posts: Seq<PostView>) -> Seq<int> {
    places(posts.len()).sort_by(sorting_order(posts))
}

/// Arranging the posts is sorting them by url, those with equal urls staying in the order of
/// finding, and then reversing the whole.
pub proof fn lemma_arranged_is_sorted_reversed(posts: Seq<PostView>)
    ensures
        display_order(posts) == sorted_order(posts).reverse(),
        arranged(posts) == sorted_order(posts).map_values(|i: int| posts[i]).reverse(),
{
    let up = sorting_order(posts);
    let down = listing_order(posts);
    let sorted = sorted_order(posts);
    assert(total_ordering(up)) by {
        lemma_listing_order_total(posts);
        assert forall|i: int, j: int| #[trigger] up(i, j) == down(j, i) by {}
        assert forall|i: int| #[trigger] up(i, i) by {}
        assert forall|i: int, j: int| #[trigger] up(i, j) && #[trigger] up(j, i) implies i == j by {
            assert(down(j, i) && down(i, j));
        }
        assert forall|i: int, j: int, k: int| #[trigger] up(i, j) && #[trigger] up(j, k) implies up(
            i,
            k,
        ) by {
            assert(down(k, j) && down(j, i));
            assert(down(k, i));
        }
        assert forall|i: int, j: int| #[trigger] up(i, j) || #[trigger] up(j, i) by {
            assert(down(j, i) || down(i, j));
        }
    }
    places(posts.len()).lemma_sort_by_ensures(up);
    sorted.lemma_reverse_to_multiset();
    assert(sorted_by(sorted.reverse(), down)) by {
        assert forall|k: int, l: int| 0 <= k < l < sorted.reverse().len() implies #[trigger] down(
            sorted.reverse()[k],
            sorted.reverse()[l],
        ) by {
            assert(up(sorted[sorted.len() - 1 - l], sorted[sorted.len() - 1 - k]));
        }
    }
    lemma_sorted_places(posts, sorted.reverse());
    assert(arranged(posts) =~= sorted.map_values(|i: int| posts[i]).reverse());
}

/// The arranged posts are the posts that were found, each once, and their urls descend.
/// Where no two posts share a url, they descend strictly.
pub proof fn lemma_arranged(posts: Seq<PostView>)
    ensures
        arranged(posts).len() == posts.len(),
        is_permutation(display_order(posts), posts.len()),
        forall|k: int|
            0 <= k < posts.len() ==> #[trigger] arranged(posts)[k] == posts[display_order(
                posts,
            )[k]],
        descending(arranged(posts)),
        distinct_urls(posts) ==> strictly_descending(arranged(posts)),
{
    let order = display_order(posts);
    let out = arranged(posts);
    lemma_display_order(posts);
    assert forall|i: int, j: int| 0 <= i < j < out.len() implies !text_lt(
        out[i].url,
        out[j].url,
    ) by {
        assert(listed_no_later(posts, order[i], order[j]));
        if text_lt(out[i].url, out[j].url) {
            if text_lt(out[j].url, out[i].url) {
                lemma_text_lt_transitive(out[i].url, out[j].url, out[i].url);
            }
            lemma_text_lt_irreflexive(out[i].url);
        }
    }
    if distinct_urls(posts) {
        assert forall|i: int, j: int| 0 <= i < j < out.len() implies text_lt(
            out[j].url,
            out[i].url,
        ) by {
            assert(listed_no_later(posts, order[i], order[j]));
            let a: int = order[i];
            let b: int = order[j];
            if a < b {
                assert(posts[a].url != posts[b].url);
            } else {
                assert(posts[b].url != posts[a].url);
            }
        }
    }
}

/// Puts the posts into the order in which a blog lists them.
pub fn arrange(posts: Vec<Post>) -> (listed: Vec<Post>)
    ensures
        listed.deep_view() == arranged(posts.deep_view()),
{
    let mut posts = posts;
    let ghost found = posts@;
    let ghost input = posts.deep_view();
    let ghost n: nat = input.len();
    let ghost leq = listing_order(input);
    let mut listed: Vec<Post> = Vec::new();
    let ghost mut order: Seq<int> = Seq::empty();
    proof {
        assert(places(n).subrange(n as int, n as int) =~= Seq::<int>::empty());
    }
    while posts.len() > 0
        invariant
            input.len() == n,
            found.len() == n,
            forall|i: int| 0 <= i < n ==> input[i] == (#[trigger] found[i])@,
            leq == listing_order(input),
            posts.len() <= n,
            posts@ == found.subrange(0, posts.len() as int),
            listed.len() + posts.len() == n,
            order.len() == listed.len(),
            forall|k: int|
                0 <= k < order.len() ==> posts.len() <= #[trigger] order[k] < n && listed@[k]@
                    == input[order[k]],
            sorted_by(order, leq),
            order.to_multiset() == places(n).subrange(posts.len() as int, n as int).to_multiset(),
        decreases posts.len(),
    {
        let ghost at: int = posts.len() - 1;
        let post = posts.pop().unwrap();
        assert(post@ == input[at]);
        let mut pos: usize = 0;
        while pos < listed.len() && !text_less(listed[pos].url.as_str(), post.url.as_str())
            invariant
                pos <= listed.len(),
                forall|k: int| 0 <= k < pos ==> !text_lt(listed@[k].url@, post.url@),
            decreases listed.len() - pos,
        {
            pos += 1;
        }
        let ghost before = order;
        let ghost held = listed@;
        listed.insert(pos, post);
        proof {
            order = before.insert(pos as int, at);
            assert forall|a: int, b: int| 0 <= a < b < order.len() implies #[trigger] leq(
                order[a],
                order[b],
            ) by {
                if a == pos {
                    let ahead: int = before[b - 1];
                    let first: int = before[pos as int];
                    assert(held[pos as int]@ == input[first]);
                    assert(held[b - 1]@ == input[ahead]);
                    if b - 1 > pos {
                        assert(leq(first, ahead));
                    }
                    if text_lt(url_at(input, ahead), url_at(input, first)) {
                        lemma_text_lt_transitive(
                            url_at(input, ahead),
                            url_at(input, first),
                            url_at(input, at),
                        );
                    }
                } else if b == pos {
                    let behind: int = before[a];
                    assert(held[a]@ == input[behind]);
                    lemma_text_lt_connected(url_at(input, behind), url_at(input, at));
                } else {
                    let x: int = if a < pos { a } else { a - 1 };
                    let y: int = if b < pos { b } else { b - 1 };
                    assert(leq(before[x], before[y]));
                }
            }
            to_multiset_insert(before, pos as int, at);
            let rest = places(n).subrange(at + 1, n as int);
            assert(places(n).subrange(at, n as int) =~= rest.insert(0, at));
            to_multiset_insert(rest, 0, at);
        }
    }
    proof {
        assert(places(n).subrange(0, n as int) =~= places(n));
        lemma_sorted_places(input, order);
        assert(listed.deep_view() =~= arranged(input));
    }
    listed
}

/// Sets the mark of each post: the first post shows its year, and a later one shows it where
/// its year is not that of the post before it.
pub fn mark_years(posts: Vec<Post>) -> (marked: Vec<Post>)
    ensures
        marked.deep_view() == year_marked(posts.deep_view()),
{
    let mut posts = posts;
    let ghost input = posts.deep_view();
    let mut i: usize = 1;
    if posts.len() > 0 {
        posts[0].show_year = true;
    }
    while i < posts.len()
        invariant
            1 <= i,
            posts.len() == input.len(),
            forall|k: int|
                0 <= k < posts.len() ==> (#[trigger] posts@[k])@.url == input[k].url
                    && posts@[k]@.year == input[k].year,
            forall|k: int|
                0 <= k < i && k < posts.len() ==> (#[trigger] posts@[k])@.show_year == (k == 0
                    || input[k - 1].year != input[k].year),
        decreases posts.len() - i,
    {
        let differs = posts[i - 1].year != posts[i].year;
        posts[i].show_year = differs;
        i += 1;
    }
    assert(posts.deep_view() =~= year_marked(input));
    posts
}

} // verus!
