//! Structs, methods, enums and pattern matching.

use chrono::Datelike;
use vstd::prelude::*;
use vstd::string::{StrSliceExecFns, StringExecFns};

verus! {

/// A point with unsigned coordinates.
pub struct Point {
    x: u32,
    y: u32,
}

impl View for Point {
    type V = (u32, u32);

    closed spec fn view(&self) -> (u32, u32) {
        (self.x, self.y)
    }
}

pub fn new_point(x: u32, y: u32) -> (r: Point)
    ensures
        r@ == (x, y),
{
    Point { x, y }
}

/// Builds the point (3, 4) and checks its coordinates.
pub fn point_checker() {
    let point = new_point(3, 4);
    assert((point.x, point.y) == (3u32, 4u32));
}

/// An axis-aligned rectangle.
pub struct Rectangle {
    pub width: u32,
    pub height: u32,
}

/// `outer` can contain `inner`, turned by a right angle if need be.
pub fn can_hold(outer: &Rectangle, inner: &Rectangle) -> (r: bool)
    ensures
        r == ((inner.width <= outer.width && inner.height <= outer.height) || (inner.height
            <= outer.width && inner.width <= outer.height)),
{
    (inner.width <= outer.width && inner.height <= outer.height) || (inner.height <= outer.width
        && inner.width <= outer.height)
}

/// A 10 x 8 rectangle holds a 5 x 4 one, and not the other way round.
pub fn rectangle_checker() {
    let big = Rectangle { width: 10, height: 8 };
    let small = Rectangle { width: 5, height: 4 };
    let a = can_hold(&big, &small);
    let b = can_hold(&small, &big);
    assert(a);
    assert(!b);
}

/// A company: its name, the year it was founded, and what it earns a year.
pub struct Company {
    name: String,
    date_of_origin: u32,
    annual_income: u64,
}

/// The UTC calendar year of a Unix time, `None` outside chrono's range.
pub uninterp spec fn utc_year_of(secs: i64) -> Option<i32>;

/// Relies on chrono::DateTime::from_timestamp and chrono::Datelike::year: the
/// UTC calendar year of `secs` seconds after the Unix epoch, `None` when
/// chrono cannot represent that time; it depends on `secs` alone.
#[verifier::external_body]
fn utc_year(secs: i64) -> (r: Option<i32>)
    ensures
        r == utc_year_of(secs),
{
    match chrono::DateTime::from_timestamp(secs, 0) {
        Some(time) => Some(time.year()),
        None => None,
    }
}

/// Relies on std's SystemTime::now and SystemTime::duration_since: whole
/// seconds from the Unix epoch to now, `None` when the clock reads earlier;
/// it depends on the clock, so nothing is stated.
#[verifier::external_body]
fn seconds_since_epoch() -> (r: Option<u64>) {
    match std::time::SystemTime::now().duration_since(std::time::UNIX_EPOCH) {
        Ok(elapsed) => Some(elapsed.as_secs()),
        Err(_) => None,
    }
}

impl Company {
    pub closed spec fn name_view(&self) -> Seq<char> {
        self.name@
    }

    pub closed spec fn founded(&self) -> u32 {
        self.date_of_origin
    }

    pub closed spec fn yearly(&self) -> u64 {
        self.annual_income
    }

    /// What the company has earned from its founding up to `year`: nothing
    /// when it was founded later, and held at `u64::MAX`.
    pub open spec fn earned_by(&self, year: int) -> int {
        let years = if year > self.founded() { year - self.founded() } else { 0 };
        let total = self.yearly() * years;
        if total > u64::MAX { u64::MAX as int } else { total }
    }

    pub fn new(name: String, date_of_origin: u32, annual_income: u64) -> (r: Self)
        ensures
            r.name_view() == name@,
            r.founded() == date_of_origin,
            r.yearly() == annual_income,
    {
        Self { name, date_of_origin, annual_income }
    }

    /// Income from the founding up to `year`.
    pub fn total_income_in(&self, year: i32) -> (r: u64)
        ensures
            r == self.earned_by(year as int),
    {
        let years: u64 = if year as i64 > self.date_of_origin as i64 {
            (year as i64 - self.date_of_origin as i64) as u64
        } else {
            0
        };
        if years == 0 || self.annual_income <= u64::MAX / years {
            proof {
                if years > 0 {
                    assert(self.annual_income * years <= u64::MAX) by (nonlinear_arith)
                        requires self.annual_income <= u64::MAX / years, years > 0;
                }
            }
            self.annual_income * years
        } else {
            proof {
                assert(self.annual_income * years > u64::MAX) by (nonlinear_arith)
                    requires self.annual_income > u64::MAX / years, years > 0;
            }
            u64::MAX
        }
    }

    /// Income from the founding up to the UTC year of the Unix time `secs`;
    /// `None` when that time has no year chrono can represent.
    pub fn total_income_at(&self, secs: i64) -> (r: Option<u64>)
        ensures
            r == match utc_year_of(secs) {
                Some(year) => Some(self.earned_by(year as int) as u64),
                None => None,
            },
    {
        match utc_year(secs) {
            Some(year) => Some(self.total_income_in(year)),
            None => None,
        }
    }

    /// Income from the founding up to the current UTC year; `None` when the
    /// system clock reads before the Unix epoch or beyond chrono's range.
    pub fn total_income(&self) -> (r: Option<u64>)
        ensures
            r matches Some(v) ==> exists|year: i32| v == self.earned_by(year as int),
    {
        match seconds_since_epoch() {
            Some(secs) => {
                if secs <= i64::MAX as u64 {
                    self.total_income_at(secs as i64)
                } else {
                    None
                }
            },
            None => None,
        }
    }
}

/// An account with an owner and an unsigned balance.
pub struct BankAccount {
    owner: String,
    balance: u64,
}

impl View for BankAccount {
    type V = u64;

    /// The balance.
    closed spec fn view(&self) -> u64 {
        self.balance
    }
}

impl BankAccount {
    pub closed spec fn owner_view(&self) -> Seq<char> {
        self.owner@
    }

    pub fn new(owner: String, balance: u64) -> (r: Self)
        ensures
            r.owner_view() == owner@,
            r@ == balance,
    {
        Self { owner, balance }
    }

    pub fn deposit(&mut self, amount: u64)
        requires
            old(self)@ + amount <= u64::MAX,
        ensures
            final(self)@ == old(self)@ + amount,
            final(self).owner_view() == old(self).owner_view(),
    {
        self.balance = self.balance + amount;
    }

    /// Takes `amount` out and says `true` when the balance covers it;
    /// otherwise (insufficient funds) leaves the balance and says `false`.
    pub fn withdraw(&mut self, amount: u64) -> (r: bool)
        ensures
            r == (old(self)@ >= amount),
            final(self)@ == if r { (old(self)@ - amount) as u64 } else { old(self)@ },
            final(self).owner_view() == old(self).owner_view(),
    {
        if self.balance < amount {
            false
        } else {
            self.balance = self.balance - amount;
            true
        }
    }

    pub fn balance(&mut self) -> (r: u64)
        ensures
            r == old(self)@,
            *final(self) == *old(self),
    {
        self.balance
    }
}

#[derive(Debug, Clone, Copy, PartialEq, Eq, Structural)]
pub enum TrafficLight {
    Red,
    Yellow,
    Green,
}

impl TrafficLight {
    /// Red turns green, green turns yellow, yellow turns red.
    pub fn next(&self) -> (r: Self)
        ensures
            r == match *self {
                TrafficLight::Red => TrafficLight::Green,
                TrafficLight::Green => TrafficLight::Yellow,
                TrafficLight::Yellow => TrafficLight::Red,
            },
    {
        match self {
            TrafficLight::Red => TrafficLight::Green,
            TrafficLight::Green => TrafficLight::Yellow,
            TrafficLight::Yellow => TrafficLight::Red,
        }
    }
}

/// An arithmetic operation on two `i32`s.
#[derive(Debug, Clone, Copy, PartialEq, Eq, Structural)]
pub enum Operation {
    Add(i32, i32),
    Subtract(i32, i32),
    Multiply(i32, i32),
    Divide(i32, i32),
}

/// Division rounding toward zero, as `i32` division does.
pub open spec fn truncating_div(x: int, y: int) -> int {
    if x >= 0 {
        x / y
    } else {
        -((-x) / y)
    }
}

impl Operation {
    /// The exact result, `None` for a division by zero.
    pub open spec fn result(self) -> Option<int> {
        match self {
            Operation::Add(x, y) => Some(x + y),
            Operation::Subtract(x, y) => Some(x - y),
            Operation::Multiply(x, y) => Some(x * y),
            Operation::Divide(x, y) => if y == 0 { None } else { Some(truncating_div(x as int, y as int)) },
        }
    }

    pub fn apply(self) -> (r: Option<i32>)
        requires
            self.result() matches Some(v) ==> i32::MIN <= v <= i32::MAX,
        ensures
            r == match self.result() {
                Some(v) => Some(v as i32),
                None => None,
            },
    {
        match self {
            Operation::Add(x, y) => Some(x + y),
            Operation::Subtract(x, y) => Some(x - y),
            Operation::Multiply(x, y) => Some(x * y),
            Operation::Divide(x, y) => if y == 0 {
                None
            } else {
                Some(x / y)
            },
        }
    }
}

/// Old units of length.
#[derive(Debug, Clone, Copy, PartialEq, Eq, Structural)]
pub enum WeirdLengthMeasures {
    Inch,
    Foot,
    Yard,
    Mile,
}

/// The decimal digits of `n`, most significant first, without leading zeros.
pub open spec fn decimal(n: nat) -> Seq<char>
    decreases n,
{
    let digit = seq!['0', '1', '2', '3', '4', '5', '6', '7', '8', '9'][(n % 10) as int];
    if n < 10 {
        seq![digit]
    } else {
        decimal(n / 10).push(digit)
    }
}

/// `n` written in decimal.
pub fn decimal_string(n: u32) -> (r: String)
    ensures
        r@ == decimal(n as nat),
    decreases n,
{
    let digits = "0123456789";
    proof {
        reveal_strlit("0123456789");
    }
    let d = (n % 10) as usize;
    let piece = digits.substring_char(d, d + 1);
    if n < 10 {
        let r = String::from_str(piece);
        assert(r@ =~= decimal(n as nat));
        r
    } else {
        let mut r = decimal_string(n / 10);
        r.append(piece);
        assert(r@ =~= decimal(n as nat));
        r
    }
}

/// The word for `i`: "FizzBuzz" for multiples of 6, "Fizz" for other even
/// numbers, "Buzz" for other multiples of 3, and the number itself otherwise.
pub open spec fn fizzbuzz_word(i: nat) -> Seq<char> {
    if i % 6 == 0 {
        "FizzBuzz"@
    } else if i % 2 == 0 {
        "Fizz"@
    } else if i % 3 == 0 {
        "Buzz"@
    } else {
        decimal(i)
    }
}

/// The words for 1 to `n`.
pub fn fizzbuzz(n: u32) -> (r: Vec<String>)
    ensures
        r@.len() == n,
        forall|i: int| 0 <= i < n ==> #[trigger] r@[i]@ == fizzbuzz_word((i + 1) as nat),
{
    let mut result: Vec<String> = Vec::new();
    let mut i: u64 = 1;
    while i <= n as u64
        invariant
            1 <= i,
            i <= n + 1,
            result@.len() == i - 1,
            forall|j: int| 0 <= j < i - 1 ==> #[trigger] result@[j]@ == fizzbuzz_word((j + 1) as nat),
        decreases n + 1 - i,
    {
        let word = if i % 6 == 0 {
            String::from_str("FizzBuzz")
        } else if i % 2 == 0 {
            String::from_str("Fizz")
        } else if i % 3 == 0 {
            String::from_str("Buzz")
        } else {
            decimal_string(i as u32)
        };
        result.push(word);
        i = i + 1;
    }
    result
}

} // verus!
