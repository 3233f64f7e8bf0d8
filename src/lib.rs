//! Inspecting a machine's UEFI boot configuration: a parser for the boot
//! manager's report, the configuration it yields, and the decisions around
//! changing the one-time boot target.
pub mod os;
pub mod text;
