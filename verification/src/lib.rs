//! needre: detection of executions from monitored directory prefixes. The
//! library holds the configuration parser, the process-tree bookkeeping fed
//! by kernel events, and the records that the kernel-side tracepoints build.
pub mod config;
pub mod event;
pub mod process;
pub mod text;

pub use config::{config_path, parse, Config, Sections};
pub use event::{decode_c_string, EventType, ProcessEvent};
pub use process::{ancestry, format_tree, ProcInfo, ProcessTable};
