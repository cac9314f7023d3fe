//! Generics, traits and lifetimes.

use vstd::prelude::*;
use vstd::std_specs::cmp::PartialOrdSpec;
use vstd::string::StringExecFns;
use core::cmp::Ordering;
use crate::text::{find_word_spans, is_last_longest, last_longest_word, word_at, words};

verus! {

/// Two values of one type.
pub struct Pair<T> {
    first: T,
    second: T,
}

impl<T> Pair<T> {
    pub closed spec fn first_view(&self) -> T {
        self.first
    }

    pub closed spec fn second_view(&self) -> T {
        self.second
    }

    pub fn new(x: T, y: T) -> (r: Pair<T>)
        ensures
            r.first_view() == x,
            r.second_view() == y,
    {
        Pair { first: x, second: y }
    }
}

impl<T: Ord> Pair<T> {
    /// The larger value; the first one when they are equal.
    pub fn max(&self) -> (r: &T)
        ensures
            *r == self.first_view() || *r == self.second_view(),
            T::obeys_partial_cmp_spec() ==> *r == if self.first_view().partial_cmp_spec(
                &self.second_view(),
            ) matches Some(Ordering::Greater | Ordering::Equal) {
                self.first_view()
            } else {
                self.second_view()
            },
    {
        if self.first >= self.second {
            &self.first
        } else {
            &self.second
        }
    }
}

/// Something that can be told in one line.
pub trait Summarize {
    spec fn summary_view(&self) -> Seq<char>;

    fn summary(&self) -> (r: String)
        ensures
            r@ == self.summary_view(),
    ;
}

pub struct Article {
    title: String,
    author: String,
    content: String,
}

impl Article {
    pub closed spec fn title_view(&self) -> Seq<char> {
        self.title@
    }

    pub closed spec fn author_view(&self) -> Seq<char> {
        self.author@
    }

    pub closed spec fn content_view(&self) -> Seq<char> {
        self.content@
    }

    pub fn new(title: String, author: String, content: String) -> (r: Self)
        ensures
            r.title_view() == title@,
            r.author_view() == author@,
            r.content_view() == content@,
    {
        Self { title, author, content }
    }
}

pub struct Tweet {
    username: String,
    content: String,
}

impl Tweet {
    pub closed spec fn username_view(&self) -> Seq<char> {
        self.username@
    }

    pub closed spec fn content_view(&self) -> Seq<char> {
        self.content@
    }

    pub fn new(username: String, content: String) -> (r: Self)
        ensures
            r.username_view() == username@,
            r.content_view() == content@,
    {
        Self { username, content }
    }
}

impl Summarize for Article {
    /// "<title> by <author>"
    open spec fn summary_view(&self) -> Seq<char> {
        self.title_view() + " by "@ + self.author_view()
    }

    fn summary(&self) -> (r: String) {
        let mut s = self.title.clone();
        s.append(" by ");
        s.append(self.author.as_str());
        s
    }
}

impl Summarize for Tweet {
    /// "@<username>: <content>"
    open spec fn summary_view(&self) -> Seq<char> {
        "@"@ + self.username_view() + ": "@ + self.content_view()
    }

    fn summary(&self) -> (r: String) {
        let mut s = String::from_str("@");
        s.append(self.username.as_str());
        s.append(": ");
        s.append(self.content.as_str());
        s
    }
}

/// "Breaking news: " and the summary of `item`.
pub fn notify<T: Summarize>(item: &T) -> (r: String)
    ensures
        r@ == "Breaking news: "@ + item.summary_view(),
{
    let summary = item.summary();
    let mut s = String::from_str("Breaking news: ");
    s.append(summary.as_str());
    s
}

/// The longer of two strings in bytes; the first when they are as long.
pub fn longest_string<'arg>(first: &'arg str, second: &'arg str) -> (r: &'arg str)
    ensures
        r@ == if first.len() >= second.len() { first@ } else { second@ },
{
    if first.len() >= second.len() {
        first
    } else {
        second
    }
}

/// A book that borrows its title and content.
pub struct Book<'field> {
    title: &'field str,
    content: &'field str,
}

impl<'field> Book<'field> {
    pub closed spec fn title_view(&self) -> Seq<char> {
        self.title@
    }

    pub closed spec fn content_view(&self) -> Seq<char> {
        self.content@
    }

    pub fn new(title: &'field str, content: &'field str) -> (r: Self)
        ensures
            r.title_view() == title@,
            r.content_view() == content@,
    {
        Self { title, content }
    }

    /// The longest word of the content in bytes, the last of them on a tie;
    /// `None` when the content holds no word.
    pub fn longest_word(&self) -> (r: Option<&'field str>)
        ensures
            words(self.content_view()).len() == 0 ==> r is None,
            words(self.content_view()).len() > 0 ==> exists|j: int|
                is_last_longest(words(self.content_view()), j) && r is Some && r->Some_0@ == words(
                    self.content_view(),
                )[j],
    {
        let spans = find_word_spans(self.content);
        if spans.len() == 0 {
            None
        } else {
            let j = last_longest_word(self.content, &spans);
            Some(word_at(self.content, &spans, j))
        }
    }
}

} // verus!
