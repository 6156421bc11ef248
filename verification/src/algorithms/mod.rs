//! Record encryption, the search kernel and the ansatz builder.
pub mod crypto;
pub mod grover;
pub mod vqe;
pub mod qml;
