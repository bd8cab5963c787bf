//! Trace production and post-processing: a varint-framed record format, an
//! event encoder with slice-stack and counter-compression policies, and an
//! annotation pipeline that rewrites `$kind:value` placeholders in text fields.

pub mod numeric;
pub mod placeholder;
pub mod annotate;
pub mod wire;
pub mod synthetto;
pub mod encoder;
pub mod framing;
pub mod pipeline;
pub mod resolve;
pub mod resolvers;
