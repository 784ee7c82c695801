pub mod adapter;
pub mod arith;
pub mod compose;
pub mod contract;
pub mod contract_changes;
pub mod contract_laws;
pub mod contract_rendering;
pub mod digest_index;
pub mod fusion;
pub mod hashrepo;
pub mod layout;
pub mod layout_fill;
pub mod layout_fill_laws;
pub mod layout_laws;
pub mod layout_morphism;
pub mod object;
pub mod pattern;
pub mod pattern_laws;
pub mod planner;
pub mod radix;
pub mod sort;
pub mod store;
pub mod stream;
pub mod stream_laws;
pub mod sync;
pub mod text;
pub mod tfm1;
pub mod tfp1;
pub mod trusted;
pub mod verdict;
pub mod verdict_laws;
pub mod wire;
pub mod workspace;
