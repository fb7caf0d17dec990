//! portspy: which processes listen on which TCP ports, as a verified library.
//!
//! The library holds every computation of the tool: parsing the kernel's
//! socket tables, joining sockets with their owners, the tab-separated wire
//! format, sorting and filtering for the dashboard, the terminal table, and
//! the small HTTP routing rules. Reading the operating system and talking to
//! the network is left to the program around it.

pub mod text;
pub mod record;
pub mod wire;
pub mod view;
pub mod net_tcp;
pub mod pid_map;
pub mod agent;
pub mod table;
pub mod http;
pub mod dashboard;
pub mod cli;
