//! Messages of several shapes.

use vstd::prelude::*;

verus! {

#[derive(Debug)]
pub enum Message {
    Quit,
    Move { x: i32, y: i32 },
    Write(String),
    ChangeColor(i32, i32, i32),
}

impl Message {
    /// Does nothing, whatever the message.
    pub fn call(&self) {
    }
}

} // verus!
