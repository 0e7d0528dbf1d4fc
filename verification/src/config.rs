//! Settings that come from the environment, with their defaults.
use vstd::prelude::*;
use vstd::string::*;

use crate::strings::{join, joined, number, number_up_to, parse_number};

verus! {

/// Port of the GNS3 REST API, unless another one is set.
pub const DEFAULT_GNS3_PORT: u16 = 3080;

/// A setting, or its default.
pub open spec fn setting(value: Option<String>, default: Seq<char>) -> Seq<char> {
    match value {
        Some(s) => s@,
        None => default,
    }
}

fn or_default(value: Option<String>, default: &str) -> (r: String)
    ensures
        r@ == setting(value, default@),
{
    match value {
        Some(s) => s,
        None => String::from_str(default),
    }
}

/// Host that runs the GNS3 server.
pub fn gns3_host(value: Option<String>) -> (r: String)
    ensures
        r@ == setting(value, "localhost"@),
{
    or_default(value, "localhost")
}

/// Port on which the GNS3 REST API listens.
pub fn gns3_port(value: Option<&str>) -> (r: u16)
    ensures
        r == match value {
            Some(s) => match number_up_to(s@, u16::MAX as nat) {
                Some(v) => v as u16,
                None => DEFAULT_GNS3_PORT,
            },
            None => DEFAULT_GNS3_PORT,
        },
        value is None ==> r == 3080,
        value matches Some(s) ==> (number(s@) is None ==> r == 3080),
        value matches Some(s) ==> (number(s@) matches Some(v) ==> if v <= 65535 {
            r == v
        } else {
            r == 3080
        }),
{
    match value {
        Some(s) => match parse_number(s, u16::MAX as u64) {
            Some(v) => v as u16,
            None => DEFAULT_GNS3_PORT,
        },
        None => DEFAULT_GNS3_PORT,
    }
}

/// Directory of everything that is read or written.
pub fn data_path(value: Option<String>) -> (r: String)
    ensures
        r@ == setting(value, "./data"@),
{
    or_default(value, "./data")
}

/// Directory with the results of an experiment, below that of the data.
pub fn experiments_path(data_path: &str, experiment: &str) -> (r: String)
    ensures
        r@ == joined(joined(data_path@, "experiments"@), experiment@),
{
    let dir = join(data_path, "experiments");
    join(dir.as_str(), experiment)
}

/// A limit on the number of runs, if one is set.
pub fn runs_override(value: Option<&str>) -> (r: Option<usize>)
    ensures
        match value {
            Some(s) => match r {
                Some(v) => number_up_to(s@, usize::MAX as nat) == Some(v as nat),
                None => number_up_to(s@, usize::MAX as nat) is None,
            },
            None => r is None,
        },
{
    match value {
        Some(s) => match parse_number(s, usize::MAX as u64) {
            Some(v) => Some(v as usize),
            None => None,
        },
        None => None,
    }
}

/// The number of runs: that of the experiment, unless fewer are asked for.
pub fn limit_runs(runs: usize, limit: Option<usize>) -> (r: usize)
    ensures
        r == match limit {
            Some(n) => if n < runs {
                n
            } else {
                runs
            },
            None => runs,
        },
        r <= runs,
        limit matches Some(n) ==> r <= n && (r == n || r == runs),
        limit is None ==> r == runs,
{
    match limit {
        Some(n) => if n < runs {
            n
        } else {
            runs
        },
        None => runs,
    }
}

/// Directory of summaries and raw experiments.
pub fn results_path(value: Option<String>) -> (r: String)
    ensures
        r@ == setting(value, "./results"@),
{
    or_default(value, "./results")
}

/// Directory in which the projects of the GNS3 server can be read.
pub fn gns3_projects_path(value: Option<String>) -> (r: String)
    ensures
        r@ == setting(value, "/opt/gns3/projects"@),
{
    or_default(value, "/opt/gns3/projects")
}

/// A setting that is given stands, whatever the default is, and otherwise the default stands.
pub proof fn law_settings_override_defaults(value: String, a: Seq<char>)
    ensures
        setting(Some(value), a) == value@,
        setting(None, a) == a,
{
}

} // verus!
