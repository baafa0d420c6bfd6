//! Errors of value operations, how path updates treat them, and their
//! conversion into the query engine's own error values.

use vstd::prelude::*;

verus! {

/// Why a value operation failed.
#[derive(Clone, Copy, Debug, PartialEq, Eq, Structural)]
pub enum JqError {
    /// An object was indexed with something other than a string.
    KeyNotString,
    /// An array was indexed with something other than an unsigned integer.
    IndexNotU64,
    /// The value has no children.
    NotObjectOrArray,
    /// The start of a slice is missing or not an integer.
    FromNotNumber,
    /// The end of a slice is missing or not an integer.
    UptoNotNumber,
    /// The start of a slice does not fit in `isize`.
    FromNotIsize,
    /// The end of a slice does not fit in `isize`.
    UptoNotIsize,
    /// An array index lies outside the array.
    IndexOutOfBounds(isize),
    /// A bound of a slice update does not fit in `isize`.
    RangeNotParsed,
    /// A slice update was applied to something other than an array.
    NotArray,
    /// The two operands of an addition cannot be added.
    AddMismatch,
}

/// Decimal digit `d` as a character.
pub open spec fn digit_char(d: nat) -> char {
    (48 + d) as char
}

/// Decimal notation of a natural number.
pub open spec fn decimal_nat(n: nat) -> Seq<char>
    decreases n,
{
    if n < 10 {
        seq![digit_char(n)]
    } else {
        decimal_nat(n / 10).push(digit_char(n % 10))
    }
}

/// Decimal notation of an integer, with a leading `-` when negative.
pub open spec fn decimal(i: int) -> Seq<char> {
    if i < 0 {
        seq!['-'] + decimal_nat((-i) as nat)
    } else {
        decimal_nat(i as nat)
    }
}

impl JqError {
    /// The message that the error reports.
    pub open spec fn spec_message(self) -> Seq<char> {
        match self {
            JqError::KeyNotString => "Key cannot be converted to String"@,
            JqError::IndexNotU64 => "Index cannot be converted to u64"@,
            JqError::NotObjectOrArray => "Value is not object or array"@,
            JqError::FromNotNumber => "From is not a Number"@,
            JqError::UptoNotNumber => "Upto is not a Number"@,
            JqError::FromNotIsize => "From cannot be converted to isize"@,
            JqError::UptoNotIsize => "Upto cannot be converted to isize"@,
            JqError::IndexOutOfBounds(i) => "index "@ + decimal(i as int) + " out of bounds"@,
            JqError::RangeNotParsed => "Failed to parse range"@,
            JqError::NotArray => "Value is not array"@,
            JqError::AddMismatch => "Cannot add values of different types"@,
        }
    }

    /// The message that the error reports.
    pub fn message(&self) -> (r: String)
        ensures
            r@ == self.spec_message(),
    {
        match self {
            JqError::KeyNotString => String::from_str("Key cannot be converted to String"),
            JqError::IndexNotU64 => String::from_str("Index cannot be converted to u64"),
            JqError::NotObjectOrArray => String::from_str("Value is not object or array"),
            JqError::FromNotNumber => String::from_str("From is not a Number"),
            JqError::UptoNotNumber => String::from_str("Upto is not a Number"),
            JqError::FromNotIsize => String::from_str("From cannot be converted to isize"),
            JqError::UptoNotIsize => String::from_str("Upto cannot be converted to isize"),
            JqError::IndexOutOfBounds(i) => out_of_bounds_message(*i),
            JqError::RangeNotParsed => String::from_str("Failed to parse range"),
            JqError::NotArray => String::from_str("Value is not array"),
            JqError::AddMismatch => String::from_str("Cannot add values of different types"),
        }
    }

    /// The error as the query engine's error value, built from the message.
    pub fn into_jaq_error<V: From<String>>(self) -> jaq_core::Error<V> {
        jaq_error_str(self.message())
    }
}

/// The one-character text of decimal digit `d`.
fn digit_str(d: u64) -> (r: &'static str)
    requires
        d < 10,
    ensures
        r@ == seq![digit_char(d as nat)],
{
    proof {
        reveal_strlit("0");
        reveal_strlit("1");
        reveal_strlit("2");
        reveal_strlit("3");
        reveal_strlit("4");
        reveal_strlit("5");
        reveal_strlit("6");
        reveal_strlit("7");
        reveal_strlit("8");
        reveal_strlit("9");
    }
    match d {
        0 => "0",
        1 => "1",
        2 => "2",
        3 => "3",
        4 => "4",
        5 => "5",
        6 => "6",
        7 => "7",
        8 => "8",
        _ => "9",
    }
}

/// Appends the decimal notation of `n` to `s`.
fn push_decimal_nat(s: &mut String, n: u64)
    ensures
        final(s)@ == old(s)@ + decimal_nat(n as nat),
    decreases n,
{
    if n >= 10 {
        push_decimal_nat(s, n / 10);
    }
    s.append(digit_str(n % 10));
    proof {
        assert(final(s)@ =~= old(s)@ + decimal_nat(n as nat)) by {
            if n >= 10 {
                assert(decimal_nat(n as nat) == decimal_nat((n / 10) as nat).push(
                    digit_char((n % 10) as nat),
                ));
            }
        }
    }
}

/// Appends the decimal notation of `i` to `s`, with a leading `-` when negative.
fn push_decimal(s: &mut String, i: isize)
    ensures
        final(s)@ == old(s)@ + decimal(i as int),
{
    if i < 0 {
        proof {
            reveal_strlit("-");
        }
        s.append("-");
        let magnitude: u64 = (-(i + 1)) as u64 + 1;
        push_decimal_nat(s, magnitude);
        assert(final(s)@ =~= old(s)@ + decimal(i as int));
    } else {
        push_decimal_nat(s, i as u64);
    }
}

/// The message of an out-of-bounds index.
fn out_of_bounds_message(i: isize) -> (r: String)
    ensures
        r@ == "index "@ + decimal(i as int) + " out of bounds"@,
{
    let mut r = String::from_str("index ");
    push_decimal(&mut r, i);
    r.append(" out of bounds");
    r
}

#[verifier::external_type_specification]
#[verifier::external_body]
#[verifier::reject_recursive_types(V)]
pub struct ExJaqError<V>(jaq_core::Error<V>);

#[verifier::external_type_specification]
#[verifier::external_body]
#[verifier::reject_recursive_types(V)]
pub struct ExJaqExn<'a, V>(jaq_core::Exn<'a, V>);

/// Calls `jaq_core::Error::str`, which wraps the value `V::from` of the
/// message. The error is opaque here: nothing is claimed of it.
#[verifier::external_body]
fn jaq_error_str<V: From<String>>(message: String) -> jaq_core::Error<V> {
    jaq_core::Error::str(message)
}

/// Calls `jaq_core::Exn::from`, which turns an error into an exception.
/// The exception is opaque here: nothing is claimed of it.
#[verifier::external_body]
fn jaq_exn_from<'a, V>(e: jaq_core::Error<V>) -> jaq_core::Exn<'a, V> {
    jaq_core::Exn::from(e)
}

/// Whether a path update may skip a value that it cannot descend into.
#[derive(Clone, Copy, Debug, PartialEq, Eq, Structural)]
pub enum PathOpt {
    /// Leave the value as it is.
    Optional,
    /// Fail.
    Essential,
}

/// Why a path update failed: the value could not be descended into, or the
/// update function raised an exception of its own.
#[derive(Debug)]
pub enum PathError<E> {
    Failed(JqError),
    Raised(E),
}

/// The outcome of a path update that cannot descend into `x`.
pub open spec fn spec_fail<T, E>(opt: PathOpt, x: T, err: JqError) -> Result<T, PathError<E>> {
    match opt {
        PathOpt::Optional => Ok(x),
        PathOpt::Essential => Err(PathError::Failed(err)),
    }
}

impl PathOpt {
    /// If optional, keeps `x`; else fails with `err`.
    pub fn fail<T, E>(self, x: T, err: JqError) -> (r: Result<T, PathError<E>>)
        ensures
            r == spec_fail::<T, E>(self, x, err),
    {
        match self {
            PathOpt::Optional => Ok(x),
            PathOpt::Essential => Err(PathError::Failed(err)),
        }
    }
}

impl<'a, V: From<String>> PathError<jaq_core::Exn<'a, V>> {
    /// The failure as the query engine's exception: a failure becomes an
    /// error built from its message, a raised exception is passed on.
    pub fn into_exn(self) -> (r: jaq_core::Exn<'a, V>)
        ensures
            self matches PathError::Raised(x) ==> r == x,
    {
        match self {
            PathError::Failed(e) => jaq_exn_from(e.into_jaq_error()),
            PathError::Raised(x) => x,
        }
    }
}

} // verus!
