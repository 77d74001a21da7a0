//! The standard processor configuration shared by checkers, generators and
//! simple processors.

use vstd::prelude::*;
use crate::config::KnownFields;
use crate::text::str_views;

verus! {

/// Universal processor config with all standard fields. Fields a processor
/// has no use for are ignored by it. The scan fields are `None` until the
/// processor's defaults are applied.
#[derive(Debug, Clone)]
pub struct StandardConfig {
    pub command: String,
    pub formats: Vec<String>,
    pub args: Vec<String>,
    pub dep_inputs: Vec<String>,
    pub dep_auto: Vec<String>,
    pub output_dir: String,
    /// Extra tools this processor needs beyond `command`, for a `command`
    /// that is a wrapper around the real tool.
    pub required_tools: Vec<String>,
    pub batch: bool,
    pub max_jobs: Option<usize>,
    /// Whether this processor is active.
    pub enabled: bool,
    pub src_dirs: Option<Vec<String>>,
    pub src_extensions: Option<Vec<String>>,
    pub src_exclude_dirs: Option<Vec<String>>,
    pub src_exclude_files: Option<Vec<String>>,
    pub src_exclude_paths: Option<Vec<String>>,
    pub src_files: Option<Vec<String>>,
}

/// The scan fields all hold a value (the processor's defaults were
/// applied).
pub open spec fn scan_resolved(c: StandardConfig) -> bool {
    &&& c.src_dirs is Some
    &&& c.src_extensions is Some
    &&& c.src_exclude_dirs is Some
    &&& c.src_exclude_files is Some
    &&& c.src_exclude_paths is Some
    &&& c.src_files is Some
}

impl Default for StandardConfig {
    /// Everything empty, batching on, enabled, scan fields unresolved.
    fn default() -> (r: Self)
        ensures
            r.command@.len() == 0,
            r.formats@.len() == 0,
            r.args@.len() == 0,
            r.dep_inputs@.len() == 0,
            r.dep_auto@.len() == 0,
            r.output_dir@.len() == 0,
            r.required_tools@.len() == 0,
            r.batch,
            r.max_jobs is None,
            r.enabled,
            r.src_dirs is None,
            r.src_extensions is None,
            r.src_exclude_dirs is None,
            r.src_exclude_files is None,
            r.src_exclude_paths is None,
            r.src_files is None,
    {
        StandardConfig {
            command: String::new(),
            formats: Vec::new(),
            args: Vec::new(),
            dep_inputs: Vec::new(),
            dep_auto: Vec::new(),
            output_dir: String::new(),
            required_tools: Vec::new(),
            batch: true,
            max_jobs: None,
            enabled: true,
            src_dirs: None,
            src_extensions: None,
            src_exclude_dirs: None,
            src_exclude_files: None,
            src_exclude_paths: None,
            src_files: None,
        }
    }
}

impl StandardConfig {
    /// The directories scanned for sources.
    pub fn src_dirs(&self) -> (r: &Vec<String>)
        requires
            self.src_dirs is Some,
        ensures
            *r == self.src_dirs->0,
    {
        self.src_dirs.as_ref().unwrap()
    }

    /// The extensions (or exact file names) that select sources.
    pub fn src_extensions(&self) -> (r: &Vec<String>)
        requires
            self.src_extensions is Some,
        ensures
            *r == self.src_extensions->0,
    {
        self.src_extensions.as_ref().unwrap()
    }

    /// Path fragments whose files are skipped.
    pub fn src_exclude_dirs(&self) -> (r: &Vec<String>)
        requires
            self.src_exclude_dirs is Some,
        ensures
            *r == self.src_exclude_dirs->0,
    {
        self.src_exclude_dirs.as_ref().unwrap()
    }

    /// File names that are skipped.
    pub fn src_exclude_files(&self) -> (r: &Vec<String>)
        requires
            self.src_exclude_files is Some,
        ensures
            *r == self.src_exclude_files->0,
    {
        self.src_exclude_files.as_ref().unwrap()
    }

    /// Paths that are skipped.
    pub fn src_exclude_paths(&self) -> (r: &Vec<String>)
        requires
            self.src_exclude_paths is Some,
        ensures
            *r == self.src_exclude_paths->0,
    {
        self.src_exclude_paths.as_ref().unwrap()
    }

    /// Paths taken as sources in any case.
    pub fn src_files(&self) -> (r: &Vec<String>)
        requires
            self.src_files is Some,
        ensures
            *r == self.src_files->0,
    {
        self.src_files.as_ref().unwrap()
    }

    /// The command, or an error naming the processor when it is not set.
    pub fn require_command(&self, context: &str) -> (r: Result<&str, String>)
        ensures
            self.command@.len() == 0 <==> r is Err,
            r matches Ok(c) ==> c@ == self.command@,
            r matches Err(m) ==> m@ == "'command' is not set for processor '"@ + context@ + "'"@,
    {
        if self.command.as_str().is_empty() {
            let mut m: String = String::from_str("'command' is not set for processor '");
            m.append(context);
            m.append("'");
            return Err(m);
        }
        Ok(self.command.as_str())
    }
}

/// The descriptions of the standard fields a processor's docs show.
pub open spec fn standard_field_descriptions() -> Seq<(&'static str, &'static str)> {
    seq![
        ("command", "Path to the tool executable"),
        ("formats", "Output formats to generate"),
        ("args", "Extra arguments passed to the tool"),
        ("output_dir", "Directory where generated output files are written"),
        ("required_tools", "Extra tools needed beyond `command` (for wrapper scripts)"),
    ]
}

impl KnownFields for StandardConfig {
    fn known_fields() -> (r: Vec<&'static str>)
        ensures
            r@ == seq!["command", "formats", "args", "dep_inputs", "dep_auto", "output_dir", "required_tools", "batch", "max_jobs"],
    {
        vec!["command", "formats", "args", "dep_inputs", "dep_auto", "output_dir", "required_tools", "batch", "max_jobs"]
    }

    fn checksum_fields() -> (r: Vec<&'static str>)
        ensures
            r@ == seq!["command", "args"],
    {
        vec!["command", "args"]
    }

    fn field_descriptions() -> (r: Vec<(&'static str, &'static str)>)
        ensures
            r@ == standard_field_descriptions(),
    {
        vec![
            ("command", "Path to the tool executable"),
            ("formats", "Output formats to generate"),
            ("args", "Extra arguments passed to the tool"),
            ("output_dir", "Directory where generated output files are written"),
            ("required_tools", "Extra tools needed beyond `command` (for wrapper scripts)"),
        ]
    }
}

/// Simple checker config: the standard fields and nothing else.
#[derive(Debug, Clone)]
pub struct CheckerConfig {
    pub standard: StandardConfig,
}

impl Default for CheckerConfig {
    fn default() -> (r: Self)
        ensures
            r.standard.batch,
            r.standard.enabled,
            r.standard.src_dirs is None,
    {
        CheckerConfig { standard: StandardConfig::default() }
    }
}

impl KnownFields for CheckerConfig {
    fn known_fields() -> (r: Vec<&'static str>)
        ensures
            r@ == seq!["command", "formats", "args", "dep_inputs", "dep_auto", "output_dir", "required_tools", "batch", "max_jobs"],
    {
        StandardConfig::known_fields()
    }

    fn checksum_fields() -> (r: Vec<&'static str>)
        ensures
            r@ == seq!["command", "args"],
    {
        StandardConfig::checksum_fields()
    }

    fn field_descriptions() -> (r: Vec<(&'static str, &'static str)>)
        ensures
            r@ == standard_field_descriptions(),
    {
        StandardConfig::field_descriptions()
    }
}

} // verus!
