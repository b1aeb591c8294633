//! Construction of the page tables a kernel loader installs before it jumps
//! to the kernel, and their serialisation into the loader image.
pub mod scheme;
pub mod descriptors;
pub mod leaves;
pub mod table;
pub mod embed;
pub mod regions;
pub mod maps;
pub mod uart16550;
pub mod leaf_laws;
