//! The decisions of a node agent: what it reads out of the machine's text
//! interfaces, what it asks for, what it concludes and in which order it acts.
//!
//! Everything here is a function from plain values to plain values. Reading
//! files, running commands and talking to the network belong to the program
//! around this library.
pub mod text;
pub mod tunnel;
pub mod nft;
pub mod launch;
pub mod numbers;
pub mod json;
pub mod address;
pub mod xray;
pub mod ports;
pub mod plan;
pub mod conntrack;
pub mod hy2_port_hop;
pub mod bytes;
pub mod http;
pub mod order;
pub mod inetdiag;
pub mod procfs;
pub mod nettables;
pub mod disks;
pub mod hostinfo;
pub mod processes;
pub mod load;
pub mod window;
pub mod echo;
pub mod shell;
pub mod command;
pub mod paths;
pub mod logcap;
pub mod options;
pub mod selfupdate;
pub mod certfile;
pub mod phantun;
pub mod probe;
pub mod realtime;
pub mod schedule;
pub mod reports;
pub mod workload;
pub mod reconcile;
pub mod wg;
pub mod health;
pub mod grants;
pub mod hotswap;
pub mod converge;
pub mod policy;
pub mod usage;
pub mod routes;
pub mod apply;
pub mod commands;
pub mod spool;
