//! Plain configuration records for the tracing sinks that surround the
//! engine. The table core never reads them; they are carried alongside it so
//! that an embedding pipeline can thread one value through construction.

use vstd::prelude::*;

verus! {

/// Configuration for log output as a whole: one file sink, one stderr sink.
#[derive(Clone, Debug)]
pub struct Config {
    pub file: FileConfig,
    pub stderr: StderrConfig,
}

/// Configuration of the file log sink.
#[derive(Clone, Debug)]
pub struct FileConfig {
    pub on: bool,
    pub level: String,
    pub dir: String,
}

/// Configuration of the stderr log sink.
#[derive(Clone, Debug)]
pub struct StderrConfig {
    pub on: bool,
    pub level: String,
}

impl Default for FileConfig {
    /// The file sink starts enabled, at level `INFO`, under `./.databend/logs`.
    fn default() -> (r: Self)
        ensures
            r.on == true,
            r.level@ == "INFO"@,
            r.dir@ == "./.databend/logs"@,
    {
        Self { on: true, level: "INFO".to_string(), dir: "./.databend/logs".to_string() }
    }
}

impl Default for StderrConfig {
    /// The stderr sink starts disabled, at level `INFO`.
    fn default() -> (r: Self)
        ensures
            r.on == false,
            r.level@ == "INFO"@,
    {
        Self { on: false, level: "INFO".to_string() }
    }
}

impl Default for Config {
    /// Both sinks take their own defaults.
    fn default() -> (r: Self)
        ensures
            r.file.on == true,
            r.file.level@ == "INFO"@,
            r.file.dir@ == "./.databend/logs"@,
            r.stderr.on == false,
            r.stderr.level@ == "INFO"@,
    {
        Self { file: FileConfig::default(), stderr: StderrConfig::default() }
    }
}

} // verus!
