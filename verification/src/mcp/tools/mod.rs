//! One module for each tool; ways from child to parent; and what the trees and the
//! answers hold.

pub mod ancestry;
pub mod answer_laws;
pub mod forest_laws;
pub mod pids_in_cgroup;
pub mod process_info;
pub mod process_tree;
pub mod top_processes;
pub mod tree_laws;
