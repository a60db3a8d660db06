pub mod bignum;
pub mod decode;
pub mod double;
pub mod encode;
pub mod extend;
pub mod decimal;
pub mod equality;
pub mod frame;
pub mod laws;
pub mod lexical;
pub mod parsed;
pub mod prefix;
pub mod resp_prefix;
pub mod roundtrip;
pub mod types;
pub mod utf8;
pub mod value;
pub mod wire;
