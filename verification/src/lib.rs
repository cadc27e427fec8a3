pub mod bitpack;
pub mod codec;
