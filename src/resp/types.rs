use vstd::prelude::*;

use crate::resp::RespElement;

verus! {

/// An array element: its declared length and its children.
#[derive(Debug)]
pub struct RespArray {
    pub length: usize,
    pub elements: Vec<RespElement>,
}

/// A length-prefixed, binary-safe byte payload.
#[derive(Debug)]
pub struct RespBulkString {
    pub length: usize,
    pub value: Vec<u8>,
}

/// A single line of text.
#[derive(Debug)]
pub struct RespSimpleString {
    pub value: String,
}

/// A signed integer.
#[derive(Debug)]
pub struct RespInteger {
    pub value: isize,
}

impl RespArray {
    /// An array of the given elements, its declared length their count.
    pub fn new(elements: Vec<RespElement>) -> (r: RespArray)
        ensures
            r.length == elements@.len(),
            r.elements@ == elements@,
    {
        let length = elements.len();
        RespArray { length, elements }
    }
}

impl RespBulkString {
    /// A bulk string holding a copy of `value`, its declared length that of `value`.
    pub fn new(value: &[u8]) -> (r: RespBulkString)
        ensures
            r.length == value@.len(),
            r.value@ == value@,
    {
        RespBulkString { value: vstd::slice::slice_to_vec(value), length: value.len() }
    }
}

} // verus!
