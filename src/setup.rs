//! Configuration values that the program around the library fills in.
use vstd::prelude::*;

verus! {

/// Where the store keeps its data.
#[derive(Copy, Clone, Debug, Eq, PartialEq, Structural)]
pub enum StorageType {
    /// In memory, not persistent.
    InMemory,
    /// In a database file.
    Persistent,
}

/// Direction of edge traversal in the store.
#[derive(Debug, Clone, Copy, PartialEq, Eq, Structural)]
pub enum Direction {
    Outgoing,
    Incoming,
    Both,
}

/// Which factor-model implementation scores factors.
#[derive(Debug, Clone, Copy, PartialEq, Eq, Structural)]
pub enum ModelBackend {
    Cpu,
    Gpu,
}

/// The options a run is given.
#[derive(Clone, Debug)]
pub struct CommandLineOptions {
    pub scenario_name: String,
    pub test_scenario: Option<String>,
    pub entities_per_domain: i32,
    pub print_training_loss: bool,
    pub test_example: Option<u32>,
    pub marginal_output_file: Option<String>,
    pub storage_type: StorageType,
    pub db_path: Option<String>,
}

} // verus!
