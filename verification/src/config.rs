use vstd::prelude::*;

verus! {

/// The configuration of one data source: its name, the size of its worker
/// pool, the tick cadence, the source address hint that selects the
/// adapter, and an optional sub-folder overriding the data folder name.
pub struct ScraperConfig {
    pub name: String,
    pub workers: usize,
    pub task_generator_delay_ms: u64,
    pub url: Option<String>,
    pub sub_data_folder: Option<String>,
}

/// The process configuration the core consumes: the remote sink settings,
/// the configured sources, and the optional retention horizon in days.
pub struct AppConfig {
    pub s3_bucket: Option<String>,
    pub s3_region: Option<String>,
    pub s3_endpoint: Option<String>,
    pub s3_prefix: Option<String>,
    pub scrapers: Vec<ScraperConfig>,
    pub retention_days: Option<u64>,
}

/// An environment override taking precedence over a file-provided value.
pub open spec fn resolved(env_value: Option<String>, file_value: Option<String>) -> Option<
    String,
> {
    if env_value is Some {
        env_value
    } else {
        file_value
    }
}

/// Clones an optional setting value.
fn clone_opt(v: &Option<String>) -> (r: Option<String>)
    ensures
        r == *v,
{
    match v {
        Some(s) => Some(s.clone()),
        None => None,
    }
}

impl AppConfig {
    /// The remote sink bucket: the environment override when set, else the
    /// file-provided value.
    pub fn get_s3_bucket(&self, env_value: Option<String>) -> (r: Option<String>)
        ensures
            r == resolved(env_value, self.s3_bucket),
    {
        match env_value {
            Some(v) => Some(v),
            None => clone_opt(&self.s3_bucket),
        }
    }

    /// The remote sink region: the environment override when set, else the
    /// file-provided value.
    pub fn get_s3_region(&self, env_value: Option<String>) -> (r: Option<String>)
        ensures
            r == resolved(env_value, self.s3_region),
    {
        match env_value {
            Some(v) => Some(v),
            None => clone_opt(&self.s3_region),
        }
    }

    /// The remote sink endpoint override: the environment override when
    /// set, else the file-provided value.
    pub fn get_s3_endpoint(&self, env_value: Option<String>) -> (r: Option<String>)
        ensures
            r == resolved(env_value, self.s3_endpoint),
    {
        match env_value {
            Some(v) => Some(v),
            None => clone_opt(&self.s3_endpoint),
        }
    }

    /// The remote key prefix: the environment override when set, else the
    /// file-provided value, else the storage root's logical name.
    pub fn get_s3_prefix(&self, env_value: Option<String>) -> (r: String)
        ensures
            r@ == (match resolved(env_value, self.s3_prefix) {
                Some(v) => v@,
                None => "data/"@,
            }),
    {
        match env_value {
            Some(v) => v,
            None => match &self.s3_prefix {
                Some(v) => v.clone(),
                None => String::from_str("data/"),
            },
        }
    }
}

} // verus!
