//! What the files under `/proc` say, as typed values.

pub mod cgroup_link;
pub mod fd;
pub mod file_laws;
pub mod io;
pub mod proc;
pub mod read;
pub mod smaps;
pub mod walk;
