pub mod bytebuf;
pub mod framing;
pub mod stream;
