//! Functions, recursion and control flow on plain integers.

use vstd::prelude::*;

verus! {

/// `n!`
pub open spec fn factorial_of(n: nat) -> nat
    decreases n,
{
    if n == 0 { 1 } else { n * factorial_of((n - 1) as nat) }
}

pub proof fn lemma_factorial_grows(n: nat)
    requires
        n >= 1,
    ensures
        factorial_of((n - 1) as nat) <= factorial_of(n),
        factorial_of(n) >= 1,
    decreases n,
{
    if n > 1 {
        lemma_factorial_grows((n - 1) as nat);
    }
    let f = factorial_of((n - 1) as nat);
    assert(n * f >= f) by (nonlinear_arith)
        requires n >= 1;
}

/// `input * input`.
pub fn square(input: u32) -> (r: u32)
    requires
        input * input <= u32::MAX,
    ensures
        r == input * input,
{
    input * input
}

/// `index!`, by recursion.
pub fn factorial(index: u32) -> (r: u32)
    requires
        factorial_of(index as nat) <= u32::MAX,
    ensures
        r == factorial_of(index as nat),
    decreases index,
{
    if index == 0 {
        1
    } else {
        proof {
            lemma_factorial_grows(index as nat);
        }
        let prev = factorial(index - 1);
        proof {
            assert(factorial_of(index as nat) == index * factorial_of((index - 1) as nat));
            assert(prev * index == index * prev) by (nonlinear_arith);
        }
        prev * index
    }
}

/// Names the sign of `number`.
pub fn sign_checker(number: i32) -> (r: &'static str)
    ensures
        number < 0 ==> r@ == "negative"@,
        number > 0 ==> r@ == "positive"@,
        number == 0 ==> r@ == "zero"@,
{
    if number < 0 {
        "negative"
    } else if number > 0 {
        "positive"
    } else {
        "zero"
    }
}

/// The largest of five numbers.
pub fn find_biggest_number(some_array: [u32; 5]) -> (r: u32)
    ensures
        exists|i: int| 0 <= i < 5 && r == some_array@[i],
        forall|i: int| 0 <= i < 5 ==> some_array@[i] <= r,
{
    let mut max_value: u32 = some_array[0];
    let mut i: usize = 1;
    while i < 5
        invariant
            1 <= i <= 5,
            exists|j: int| 0 <= j < i && max_value == some_array@[j],
            forall|j: int| 0 <= j < i ==> some_array@[j] <= max_value,
        decreases 5 - i,
    {
        if max_value < some_array[i] {
            max_value = some_array[i];
        }
        i = i + 1;
    }
    max_value
}

} // verus!
