//! Coins and their values, and the moves of a dice game.

use vstd::prelude::*;

verus! {

#[derive(Clone, Copy, Debug, PartialEq, Eq, Structural)]
pub enum UsState {
    Alabama,
    Alaska,
}

#[derive(Clone, Copy, Debug, PartialEq, Eq, Structural)]
pub enum Coin {
    Penny,
    Nickel,
    Dime,
    Quarter(UsState),
}

/// What a coin is worth, in cents.
pub open spec fn cents(coin: Coin) -> int {
    match coin {
        Coin::Penny => 1,
        Coin::Nickel => 5,
        Coin::Dime => 10,
        Coin::Quarter(_) => 25,
    }
}

pub fn value_in_cents(coin: Coin) -> (value: u8)
    ensures
        value == cents(coin),
{
    match coin {
        Coin::Penny => 1,
        Coin::Nickel => 5,
        Coin::Dime => 10,
        Coin::Quarter(_) => 25,
    }
}

/// The successor of the number, where there is one.
pub fn plus_one(x: Option<i32>) -> (n: Option<i32>)
    requires
        x matches Some(i) ==> i < i32::MAX,
    ensures
        n == match x {
            None => None::<i32>,
            Some(i) => Some((i + 1) as i32),
        },
{
    match x {
        None => None,
        Some(i) => Some(i + 1),
    }
}

/// A move of the game that changes nothing.
pub fn add_fancy_hat() {
}

/// A move of the game that changes nothing.
pub fn remove_fancy_hat() {
}

/// A move of the game that changes nothing, however many spaces.
pub fn move_player(num_spaces: u8) {
}

/// A move of the game that changes nothing.
pub fn roll_again() {
}

} // verus!
