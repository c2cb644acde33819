//! The Postman collection tree that the conversion reads.

use vstd::prelude::*;
use crate::json::JsonValue;

verus! {

#[derive(Debug)]
pub struct PostmanCollection {
    pub info: Option<Info>,
    pub item: Option<Vec<Item>>,
}

#[derive(Debug)]
pub struct Info {
    pub name: Option<String>,
    pub description: Option<String>,
}

/// A folder (with nested items) or a request (with its sample responses).
#[derive(Debug)]
pub struct Item {
    pub name: Option<String>,
    pub item: Option<Vec<Item>>,
    pub request: Option<Request>,
    pub response: Option<Vec<Response>>,
}

#[derive(Debug)]
pub struct Request {
    pub method: Option<String>,
    pub url: Option<Url>,
    pub header: Option<Vec<Header>>,
    pub body: Option<Body>,
    pub description: Option<String>,
}

#[derive(Debug)]
pub struct Url {
    /// Path segments: a text, or an object carrying a `value` member.
    pub path: Option<Vec<JsonValue>>,
    pub variable: Option<Vec<Variable>>,
    pub query: Option<Vec<Query>>,
}

#[derive(Debug)]
pub struct Variable {
    pub key: Option<String>,
    pub value: Option<String>,
}

#[derive(Debug)]
pub struct Query {
    pub key: Option<String>,
    pub value: Option<String>,
    pub description: Option<String>,
    pub disabled: Option<bool>,
}

#[derive(Debug)]
pub struct Header {
    pub key: Option<String>,
    pub value: Option<String>,
    pub description: Option<String>,
    pub disabled: Option<bool>,
}

#[derive(Debug)]
pub struct Body {
    pub mode: Option<String>,
    pub raw: Option<String>,
}

#[derive(Debug)]
pub struct Response {
    pub name: Option<String>,
    pub code: Option<u32>,
    pub header: Option<Vec<Header>>,
    pub body: Option<String>,
}

/// An optional text as an optional sequence of characters.
pub open spec fn opt_text(s: Option<String>) -> Option<Seq<char>> {
    match s {
        Some(t) => Some(t@),
        None => None,
    }
}

/// The elements of an optional list; an absent list has none.
pub open spec fn list_of<T>(l: Option<Vec<T>>) -> Seq<T> {
    match l {
        Some(v) => v@,
        None => Seq::empty(),
    }
}

} // verus!
