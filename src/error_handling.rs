//! `Result`, `Option`, and functions worth testing.

use vstd::prelude::*;
use vstd::string::{StrSliceExecFns, StringExecFns};
use crate::basics::{factorial_of, lemma_factorial_grows};
use crate::text::{find_word_spans, word_at, words};

verus! {

/// The first character of `text`, or the error "Empty string".
pub fn first_char(text: &str) -> (r: Result<char, String>)
    ensures
        text@.len() == 0 ==> r is Err && r->Err_0@ == "Empty string"@,
        text@.len() > 0 ==> r == Ok::<char, String>(text@[0]),
{
    if text.unicode_len() == 0 {
        Err(String::from_str("Empty string"))
    } else {
        Ok(text.get_char(0))
    }
}

pub open spec fn is_ascii_digit(c: char) -> bool {
    '0' <= c <= '9'
}

/// The value of a run of decimal digits.
pub open spec fn digits_value(d: Seq<char>) -> int
    decreases d.len(),
{
    if d.len() == 0 {
        0
    } else {
        digits_value(d.drop_last()) * 10 + (d.last() as int - '0' as int)
    }
}

/// What `i32`'s `FromStr` makes of `s`: an optional `+` or `-`, then one or
/// more ASCII digits, with a value in the range of `i32`; `None` for anything
/// else.
pub open spec fn parsed_i32(s: Seq<char>) -> Option<i32> {
    let signed = s.len() > 0 && (s[0] == '-' || s[0] == '+');
    let body = if signed { s.drop_first() } else { s };
    let magnitude = digits_value(body);
    let v = if s.len() > 0 && s[0] == '-' { -magnitude } else { magnitude };
    if body.len() > 0 && (forall|i: int| 0 <= i < body.len() ==> is_ascii_digit(#[trigger] body[i]))
        && i32::MIN <= v <= i32::MAX {
        Some(v as i32)
    } else {
        None
    }
}

/// Relies on `str::parse::<i32>`: an optional sign and decimal digits, in
/// range, give the number; anything else gives an error.
#[verifier::external_body]
fn parse_i32(s: &str) -> (r: Option<i32>)
    ensures
        r == parsed_i32(s@),
{
    s.parse::<i32>().ok()
}

/// Every word of `s` reads as an `i32`.
pub open spec fn all_parse(ws: Seq<Seq<char>>) -> bool {
    forall|i: int| 0 <= i < ws.len() ==> #[trigger] parsed_i32(ws[i]) is Some
}

/// The whitespace-separated integers of `line`, or the error "Invalid number"
/// when one of its words is not an `i32`.
pub fn read_numbers_from_str(line: &str) -> (r: Result<Vec<i32>, String>)
    ensures
        all_parse(words(line@)) ==> r is Ok && r->Ok_0@ == words(line@).map_values(
            |w: Seq<char>| parsed_i32(w)->Some_0,
        ),
        !all_parse(words(line@)) ==> r is Err && r->Err_0@ == "Invalid number"@,
{
    let ghost ws = words(line@);
    let spans = find_word_spans(line);
    let mut numbers: Vec<i32> = Vec::new();
    let mut k: usize = 0;
    while k < spans.len()
        invariant
            ws == words(line@),
            ws.len() == spans@.len(),
            crate::text::spans_view(spans@) == crate::text::word_spans(line@),
            k <= spans@.len(),
            forall|i: int| 0 <= i < k ==> #[trigger] parsed_i32(ws[i]) is Some,
            numbers@ == ws.take(k as int).map_values(|w: Seq<char>| parsed_i32(w)->Some_0),
        decreases spans@.len() - k,
    {
        let word = word_at(line, &spans, k);
        match parse_i32(word) {
            Some(num) => {
                numbers.push(num);
                assert(ws.take(k + 1) =~= ws.take(k as int).push(ws[k as int]));
                assert(numbers@ =~= ws.take(k + 1).map_values(
                    |w: Seq<char>| parsed_i32(w)->Some_0,
                ));
            },
            None => {
                return Err(String::from_str("Invalid number"));
            },
        }
        k = k + 1;
    }
    assert(ws.take(k as int) =~= ws);
    Ok(numbers)
}

/// A user, with an email address or none.
pub struct UserProfile {
    username: String,
    email: Option<String>,
}

/// What follows the first `@` of `address`, or `None` when it holds none.
pub open spec fn domain_of(address: Seq<char>) -> Option<Seq<char>> {
    if exists|i: int| 0 <= i < address.len() && address[i] == '@' {
        let i = choose|i: int|
            0 <= i < address.len() && address[i] == '@' && forall|j: int|
                0 <= j < i ==> address[j] != '@';
        Some(address.subrange(i + 1, address.len() as int))
    } else {
        None
    }
}

impl UserProfile {
    pub closed spec fn username_view(&self) -> Seq<char> {
        self.username@
    }

    pub closed spec fn email_view(&self) -> Option<Seq<char>> {
        match self.email {
            Some(e) => Some(e@),
            None => None,
        }
    }

    pub fn new(username: String, email: Option<String>) -> (r: Self)
        ensures
            r.username_view() == username@,
            r.email_view() == match email {
                Some(e) => Some(e@),
                None => None,
            },
    {
        UserProfile { username, email }
    }

    /// The part of the email address after its first `@`; `None` without an
    /// address or without an `@` in it.
    pub fn get_email_domain(&self) -> (r: Option<String>)
        ensures
            r matches Some(d) ==> self.email_view() matches Some(a) && domain_of(a) == Some(d@),
            r is None ==> (self.email_view() matches Some(a) ==> domain_of(a) is None),
    {
        match &self.email {
            None => None,
            Some(address) => {
                assert(self.email_view() == Some(address@));
                let s = address.as_str();
                let n = s.unicode_len();
                let mut i: usize = 0;
                while i < n
                    invariant
                        n == s@.len(),
                        self.email_view() == Some(s@),
                        i <= n,
                        forall|j: int| 0 <= j < i ==> s@[j] != '@',
                    decreases n - i,
                {
                    if s.get_char(i) == '@' {
                        let ghost a = s@;
                        assert(0 <= i < a.len() && a[i as int] == '@' && forall|j: int|
                            0 <= j < i ==> a[j] != '@');
                        proof {
                            assert(exists|k: int| 0 <= k < a.len() && a[k] == '@');
                            let c = choose|c: int|
                                0 <= c < a.len() && a[c] == '@' && forall|j: int|
                                    0 <= j < c ==> a[j] != '@';
                            if c < i {
                                assert(a[c] != '@');
                            } else if c > i {
                                assert(a[i as int] != '@');
                            }
                            assert(c == i);
                            assert(domain_of(a) == Some(a.subrange(i + 1, n as int)));
                            assert(self.email_view() == Some(a));
                        }
                        return Some(String::from_str(s.substring_char(i + 1, n)));
                    }
                    i = i + 1;
                }
                None
            },
        }
    }
}

/// `n!` as a `u64`.
pub fn factorial(n: u32) -> (r: u64)
    requires
        factorial_of(n as nat) <= u64::MAX,
    ensures
        r == factorial_of(n as nat),
    decreases n,
{
    if n <= 1 {
        assert(factorial_of(1) == 1 * factorial_of(0));
        1
    } else {
        proof {
            lemma_factorial_grows(n as nat);
        }
        let prev = factorial(n - 1);
        proof {
            assert(factorial_of(n as nat) == n * factorial_of((n - 1) as nat));
        }
        n as u64 * prev
    }
}

} // verus!
