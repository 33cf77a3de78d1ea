mod arith;

pub mod cidr;
pub mod laws;
pub mod to_addrs;
pub mod to_cidrs;
