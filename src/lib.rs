//! Conversion of Postman collections into OpenAPI 3.0 documents, with
//! verified schema inference and verified mapping rules.

pub mod convert;
pub mod json;
pub mod openapi;
pub mod postman;
pub mod request;
pub mod response;
pub mod schema;
pub mod text;

pub use schema::infer_schema;
pub use convert::convert_postman_to_openapi;
