use vstd::prelude::*;

use crate::layout::{folder_name, partition_file_path, partition_path, PayloadKind};

verus! {

/// The partitioned store: owns the storage root under which one columnar
/// file per (source folder, calendar date, payload kind) lives.
pub struct Storage {
    pub base_path: String,
}

impl Storage {
    /// A store over the given storage root.
    pub fn new(base_path: &str) -> (s: Storage)
        ensures
            s.base_path@ == base_path@,
    {
        Storage { base_path: base_path.to_owned() }
    }

    /// The file path of the partition a group of readings belongs to: the
    /// source's data folder (its configured sub-folder, else its name), the
    /// group's reference-timezone calendar date and the payload kind under
    /// the storage root. The two kinds of one date get distinct files.
    pub fn partition_file(
        &self,
        name: &str,
        subfolder: Option<&str>,
        y: i32,
        m: u32,
        d: u32,
        kind: PayloadKind,
    ) -> (p: String)
        requires
            y > i32::MIN,
            m < 100,
            d < 100,
        ensures
            p@ == partition_path(
                self.base_path@,
                match subfolder {
                    Some(s) => s@,
                    None => name@,
                },
                y as int,
                m as int,
                d as int,
                kind,
            ),
    {
        let folder = folder_name(name, subfolder);
        partition_file_path(self.base_path.as_str(), folder.as_str(), y, m, d, kind)
    }
}

} // verus!
