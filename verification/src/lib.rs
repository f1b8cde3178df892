//! Passive and active auditing of post-quantum key exchange support in
//! SSH and TLS handshakes: wire-format parsers, TCP stream joining and
//! report rendering.

pub mod wire;
pub mod tls_wire;
pub mod text;
pub mod ip;
pub mod tcp;
pub mod table;
pub mod ssh;
pub mod tls;
pub mod net;
pub mod capture;
pub mod names;
pub mod scan_report;
pub mod endpoint;
pub mod summary;
pub mod scan_input;
pub mod report_files;
pub mod laws;
