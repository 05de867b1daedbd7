//! Static schedulability analysis for fixed-priority preemptive tasks that
//! share resources under the Stack Resource Policy.
pub mod model;
pub mod analysis;
pub mod tables;
pub mod laws;

pub use model::{AnalysisError, PreemptionMode, Schedulable, Task, Trace};
pub use analysis::{
    srp_analyze, total_load_factor, LoadFactor, TaskReport,
    TaskSchedulable, TraceSchedulable,
};
pub use tables::{pre_analysis, update_prio, update_tr, IdPrio, TaskResources};
