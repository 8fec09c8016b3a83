//! Verified core of an iSCSI target monitor: parsing of the kernel's and of
//! `ss`'s reports, rate bookkeeping, the session table's filter, sort and
//! selection state, and the text shown in its cells.

pub mod text;
pub mod sort;
pub mod rates;
pub mod iscsi;
pub mod net;
pub mod table;
pub mod textmap;
pub mod app;
pub mod ui;
pub mod laws;
