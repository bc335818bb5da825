//! A FastCGI client library: the record wire format and the name/value
//! exchange of `FCGI_GET_VALUES`, with their contracts proved by Verus.

pub mod conn;
pub mod fcgi;
pub mod spec;
pub mod value_map;
pub mod wire;
