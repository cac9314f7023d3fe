use std::collections::HashMap;

use rust_tasks::basics::{factorial, find_biggest_number, sign_checker, square};
use rust_tasks::collections::{
    longest_increasing_subsequence, normalize_and_capitalize, reverse_words, second_largest,
    top_k_frequent, unique_chars,
};
use rust_tasks::error_handling::factorial as wide_factorial;
use rust_tasks::error_handling::{first_char, read_numbers_from_str, UserProfile};
use rust_tasks::generics::{longest_string, notify, Article, Book, Pair, Summarize, Tweet};
use rust_tasks::iterators::{
    filter_and_sort_names, group_students_by_grade, lex_less, top_k_most_common_letters,
    word_frequencies,
};
use rust_tasks::ownership::{
    append_and_return_length, hard_borrowing, last_word, longest_owned, longest_word,
    string_ownership,
};
use rust_tasks::structs_enums::{
    can_hold, decimal_string, fizzbuzz, new_point, point_checker, rectangle_checker, BankAccount,
    Company, Operation, Rectangle, TrafficLight,
};

#[test]
fn squares_and_factorials() {
    assert_eq!(square(0), 0);
    assert_eq!(square(12), 144);
    assert_eq!(factorial(0), 1);
    assert_eq!(factorial(5), 120);
    assert_eq!(factorial(12), 479001600);
}

#[test]
fn test_factorial() {
    assert!(wide_factorial(0) == 1);
    assert!(wide_factorial(1) == 1);
    assert!(wide_factorial(2) == 2);
    assert!(wide_factorial(3) == 6);
    assert!(wide_factorial(4) == 24);
    assert!(wide_factorial(5) == 120);
    assert!(wide_factorial(6) == 720);
    assert!(wide_factorial(20) == 2432902008176640000);
}

#[test]
fn signs_and_maxima() {
    assert_eq!(sign_checker(-3), "negative");
    assert_eq!(sign_checker(0), "zero");
    assert_eq!(sign_checker(8), "positive");
    assert_eq!(find_biggest_number([3, 9, 2, 9, 1]), 9);
    assert_eq!(find_biggest_number([0, 0, 0, 0, 0]), 0);
}

#[test]
fn ownership_and_borrowing() {
    string_ownership();
    hard_borrowing();
    assert_eq!(longest_owned(String::from("a"), String::from("b2")), "b2");
    assert_eq!(longest_owned(String::from("xy"), String::from("ab")), "xy");
    let mut s = String::from("123");
    assert_eq!(append_and_return_length(&mut s, "345"), 6);
    assert_eq!(append_and_return_length(&mut s, "678"), 9);
    assert_eq!(s, "123345678");
}

#[test]
fn last_and_longest_words() {
    assert_eq!(last_word("hello brave world "), "world");
    assert_eq!(last_word("single"), "single");
    assert_eq!(last_word("   "), "   ");
    assert_eq!(last_word(""), "");
    assert_eq!(longest_word("a bb cc d"), "cc");
    assert_eq!(longest_word("the quick\tbrown fox"), "brown");
    assert_eq!(longest_word("  "), "  ");
}

#[test]
fn structs_and_enums() {
    point_checker();
    rectangle_checker();
    let _p = new_point(1, 2);
    let big = Rectangle { width: 10, height: 8 };
    let turned = Rectangle { width: 8, height: 10 };
    assert!(can_hold(&big, &turned));
    assert!(!can_hold(&Rectangle { width: 5, height: 4 }, &big));
    assert_eq!(TrafficLight::Red.next(), TrafficLight::Green);
    assert_eq!(TrafficLight::Green.next(), TrafficLight::Yellow);
    assert_eq!(TrafficLight::Yellow.next(), TrafficLight::Red);
    assert_eq!(Operation::Add(2, 3).apply(), Some(5));
    assert_eq!(Operation::Subtract(2, 3).apply(), Some(-1));
    assert_eq!(Operation::Multiply(-4, 3).apply(), Some(-12));
    assert_eq!(Operation::Divide(7, -2).apply(), Some(-3));
    assert_eq!(Operation::Divide(-7, 2).apply(), Some(-3));
    assert_eq!(Operation::Divide(1, 0).apply(), None);
}

#[test]
fn accounts_and_companies() {
    let mut account = BankAccount::new(String::from("ann"), 100);
    assert!(!account.withdraw(101));
    assert!(account.withdraw(30));
    account.deposit(5);
    assert_eq!(account.balance(), 75);
    assert!(account.withdraw(75));
    assert_eq!(account.balance(), 0);
    let company = Company::new(String::from("acme"), 2000, 10);
    assert_eq!(company.total_income_in(2024), 240);
    assert_eq!(company.total_income_in(1990), 0);
    assert!(company.total_income().unwrap() >= 240);
    assert_eq!(company.total_income_at(1_700_000_000), Some(230));
    assert_eq!(company.total_income_at(0), Some(0));
    assert_eq!(company.total_income_at(i64::MAX), None);
    let rich = Company::new(String::from("big"), 0, u64::MAX / 2);
    assert_eq!(rich.total_income_in(3), u64::MAX);
}

#[test]
fn fizzbuzz_words() {
    assert_eq!(fizzbuzz(6), vec!["1", "Fizz", "Buzz", "Fizz", "5", "FizzBuzz"]);
    assert_eq!(fizzbuzz(0), Vec::<String>::new());
    assert_eq!(fizzbuzz(13)[12], "13");
    assert_eq!(decimal_string(0), "0");
    assert_eq!(decimal_string(4294967295), "4294967295");
}

#[test]
fn vectors() {
    assert_eq!(second_largest(&[3, 1, 3, 2]), Some(2));
    assert_eq!(second_largest(&[5, 5]), None);
    assert_eq!(second_largest(&[]), None);
    assert_eq!(second_largest(&[-1, -7]), Some(-7));
    assert_eq!(longest_increasing_subsequence(&[10, 9, 2, 5, 3, 7, 101, 18]), vec![2, 5, 7, 18]);
    assert_eq!(longest_increasing_subsequence(&[]), Vec::<i32>::new());
    assert_eq!(longest_increasing_subsequence(&[3, 3, 3]), vec![3]);
}

#[test]
fn strings() {
    assert_eq!(reverse_words("hello world  x"), "x  world hello");
    assert_eq!(reverse_words("one"), "one");
    assert_eq!(reverse_words(""), "");
    assert_eq!(normalize_and_capitalize("  hELLO   wORLD "), "Hello World");
    assert_eq!(normalize_and_capitalize("\u{43f}\u{420}\u{435}"), "\u{41f}\u{440}\u{435}");
    assert_eq!(normalize_and_capitalize(""), "");
    assert!(unique_chars("abc"));
    assert!(!unique_chars("abca"));
    assert!(unique_chars(""));
    assert!(!unique_chars("Aa"));
    assert!(unique_chars("aBc"));
}

#[test]
fn frequent_numbers() {
    assert_eq!(top_k_frequent(vec![1, 1, 1, 2, 2, 3], 2), vec![1, 2]);
    assert_eq!(top_k_frequent(vec![1, 1, 1, 2, 2, 3], 10), vec![1, 2, 3]);
    assert_eq!(top_k_frequent(vec![], 3), Vec::<i32>::new());
    assert_eq!(top_k_frequent(vec![4, 4], 0), Vec::<i32>::new());
}

#[test]
fn results_and_options() {
    assert_eq!(first_char(""), Err(String::from("Empty string")));
    assert_eq!(first_char("hi"), Ok('h'));
    assert_eq!(read_numbers_from_str(" 1 -2  +3 "), Ok(vec![1, -2, 3]));
    assert_eq!(read_numbers_from_str(""), Ok(vec![]));
    assert_eq!(read_numbers_from_str("1 x"), Err(String::from("Invalid number")));
    assert_eq!(read_numbers_from_str("99999999999"), Err(String::from("Invalid number")));
    let user = UserProfile::new(String::from("bob"), Some(String::from("bob@example.com")));
    assert_eq!(user.get_email_domain(), Some(String::from("example.com")));
    let no_mail = UserProfile::new(String::from("eve"), None);
    assert_eq!(no_mail.get_email_domain(), None);
    let bad_mail = UserProfile::new(String::from("sam"), Some(String::from("nodomain")));
    assert_eq!(bad_mail.get_email_domain(), None);
    let two_ats = UserProfile::new(String::from("x"), Some(String::from("a@b@c")));
    assert_eq!(two_ats.get_email_domain(), Some(String::from("b@c")));
}

#[test]
fn generics_and_traits() {
    assert_eq!(*Pair::new(3, 7).max(), 7);
    assert_eq!(*Pair::new(9, 7).max(), 9);
    let article = Article::new(String::from("Title"), String::from("Author"), String::from("text"));
    assert_eq!(article.summary(), "Title by Author");
    assert_eq!(notify(&article), "Breaking news: Title by Author");
    let tweet = Tweet::new(String::from("user"), String::from("hi"));
    assert_eq!(notify(&tweet), "Breaking news: @user: hi");
    assert_eq!(longest_string("ab", "abc"), "abc");
    assert_eq!(longest_string("xy", "ab"), "xy");
    let book = Book::new("Book", "a bb cc d");
    assert_eq!(book.longest_word(), Some("cc"));
    assert_eq!(Book::new("Empty", "   ").longest_word(), None);
}

#[test]
fn word_and_letter_counts() {
    assert_eq!(
        word_frequencies("the cat The dog the"),
        vec![(String::from("the"), 3), (String::from("cat"), 1), (String::from("dog"), 1)]
    );
    assert_eq!(word_frequencies(""), vec![]);
    assert_eq!(top_k_most_common_letters("Hello, World!", 3), vec![('l', 3), ('o', 2), ('d', 1)]);
    assert_eq!(top_k_most_common_letters("aA b", 5), vec![('a', 2), ('b', 1)]);
    assert_eq!(top_k_most_common_letters("a1", 1), vec![('a', 1)]);
    assert_eq!(top_k_most_common_letters("1 2 3 ?", 2), vec![]);
    assert!(lex_less("ab", "abc"));
    assert!(!lex_less("b", "abc"));
}

#[test]
fn names_and_grades() {
    let names = vec![
        String::from("bob"),
        String::from("Alice"),
        String::from("al"),
        String::from("carl"),
        String::from("Bobby"),
        String::from("BOB"),
    ];
    assert_eq!(filter_and_sort_names(names, 3), vec!["Alice", "bob", "BOB", "Bobby", "carl"]);
    let students = vec![
        (String::from("zed"), 3),
        (String::from("amy"), 5),
        (String::from("kim"), 3),
        (String::from("bo"), 3),
    ];
    let groups = group_students_by_grade(students);
    let mut expected = HashMap::new();
    expected.insert(3, vec![String::from("bo"), String::from("kim"), String::from("zed")]);
    expected.insert(5, vec![String::from("amy")]);
    assert_eq!(groups, expected);
}
