//! Client-side framing and decoding for the netlink route family:
//! a streaming message reader over a byte transport, a walker for the
//! nested tag-length-value attributes that link messages carry, and the
//! small fixed-layout codecs they share.

pub mod netlink;
pub mod route;
