//! Project configuration: the sections of the project file, their defaults,
//! and the checks and rewrites applied to them.

pub mod analyzer_configs;
pub mod processor_configs;
pub mod variables;
pub mod toml_value;
pub mod dependencies;
pub mod provenance;
pub mod registry;
pub mod instance;
pub mod validation;
pub mod analyzer;
pub mod scan;
pub mod overrides;
pub mod load;
pub mod spans;

use vstd::prelude::*;
use crate::config::toml_value::TomlValue;
use crate::exit_code::{config_error, RsconstructError, RsconstructExitCode};
use crate::checksum::{calculate_checksum_bytes, hex_of, sha256_of};
use crate::config_diff::JsonValue;
use crate::json_text::{JsonView, json_copy, json_text, json_to_string, json_view, lemma_members_view_index, lemma_members_view_push, members_view};
use crate::text::{clone_string, str_views, strs_contain};

verus! {

/// A configuration struct that names its fields: the fields the project
/// file may set (scan fields excluded), the ones that affect what the tool
/// produces, and a description of the processor-specific ones.
pub trait KnownFields {
    fn known_fields() -> Vec<&'static str>;

    fn checksum_fields() -> Vec<&'static str>;

    fn field_descriptions() -> Vec<(&'static str, &'static str)>;
}

/// The default of a flag that is on unless the project file turns it off.
pub fn default_true() -> (r: bool)
    ensures
        r,
{
    true
}

/// The `[graph]` section: which consistency checks run on the build graph.
#[derive(Debug, Clone)]
pub struct GraphConfig {
    /// The program used to open a rendered graph, if any.
    pub viewer: Option<String>,
    /// Reject products with no input files. On when the section is read.
    pub validate_empty_inputs: bool,
    /// Check that ids equal indices and every dependency names a product.
    /// On when the section is read.
    pub validate_dep_references: bool,
    /// Report an input that appears in two products of one processor.
    pub validate_duplicate_inputs: bool,
    /// Look for cycles right after dependencies are resolved.
    pub validate_early_cycles: bool,
}

impl Default for GraphConfig {
    /// Every check off and no viewer; reading a `[graph]` section turns the
    /// first two checks on unless it says otherwise.
    fn default() -> (r: Self)
        ensures
            r.viewer is None,
            !r.validate_empty_inputs,
            !r.validate_dep_references,
            !r.validate_duplicate_inputs,
            !r.validate_early_cycles,
    {
        GraphConfig {
            viewer: None,
            validate_empty_inputs: false,
            validate_dep_references: false,
            validate_duplicate_inputs: false,
            validate_early_cycles: false,
        }
    }
}

/// The C compiler the C/C++ analyzer asks by default.
pub fn default_cc_compiler() -> (r: String)
    ensures
        r@ == "gcc"@,
{
    String::from_str("gcc")
}

/// The C++ compiler the C/C++ analyzer asks by default.
pub fn default_cxx_compiler() -> (r: String)
    ensures
        r@ == "g++"@,
{
    String::from_str("g++")
}

/// The default suffix of linked outputs.
pub fn default_output_suffix() -> (r: String)
    ensures
        r@ == ".elf"@,
{
    String::from_str(".elf")
}

/// The `[plugins]` section.
#[derive(Debug, Clone)]
pub struct PluginsConfig {
    pub dir: String,
}

impl Default for PluginsConfig {
    /// Plugins live in `plugins`.
    fn default() -> (r: Self)
        ensures
            r.dir@ == "plugins"@,
    {
        PluginsConfig { dir: String::from_str("plugins") }
    }
}

/// The `symlink-install` command: `sources[i]` is linked to `targets[i]`.
#[derive(Debug, Clone)]
pub struct SymlinkInstallConfig {
    pub sources: Vec<String>,
    pub targets: Vec<String>,
}

impl Default for SymlinkInstallConfig {
    fn default() -> (r: Self)
        ensures
            r.sources@.len() == 0 && r.targets@.len() == 0,
    {
        SymlinkInstallConfig { sources: Vec::new(), targets: Vec::new() }
    }
}

/// Publishing to GitHub Pages: the directory whose contents are published.
#[derive(Debug, Clone)]
pub struct PagesConfig {
    pub dir: String,
}

/// Custom commands.
#[derive(Debug, Clone)]
pub struct CommandsConfig {
    pub symlink_install: SymlinkInstallConfig,
}

impl Default for CommandsConfig {
    fn default() -> (r: Self)
        ensures
            r.symlink_install.sources@.len() == 0 && r.symlink_install.targets@.len() == 0,
    {
        CommandsConfig { symlink_install: SymlinkInstallConfig::default() }
    }
}

/// The `[build]` section.
#[derive(Debug, Clone)]
pub struct BuildConfig {
    /// Parallel jobs (1 sequential, 0 one per CPU).
    pub parallel: usize,
    /// Files per batch (0: no limit).
    pub batch_size: usize,
    /// Global output directory prefix.
    pub output_dir: String,
    /// Argument bytes before a checker invocation is split.
    pub max_arg_len: usize,
    /// Discovery passes before the build fails.
    pub max_discovery_passes: usize,
    /// Mix tool versions into cache keys.
    pub hash_tool_versions: bool,
    /// Warn on every symlink met while indexing.
    pub warn_symlinks: bool,
    /// Skip a listed `dep_auto` file that is missing.
    pub allow_missing_dep_auto: bool,
    /// Skip a listed source directory that is missing.
    pub allow_missing_src_dirs: bool,
    /// Refuse `.` as a source directory.
    pub reject_dot_src_dirs: bool,
    /// Seconds an external command may run (0: no limit).
    pub command_timeout_secs: u64,
}

impl Default for BuildConfig {
    fn default() -> (r: Self)
        ensures
            r.parallel == 0,
            r.batch_size == 0,
            r.output_dir@ == "out"@,
            r.max_arg_len == 1_000_000,
            r.max_discovery_passes == 10,
            r.hash_tool_versions,
            !r.warn_symlinks && !r.allow_missing_dep_auto && !r.allow_missing_src_dirs && !r.reject_dot_src_dirs,
            r.command_timeout_secs == 0,
    {
        BuildConfig {
            parallel: 0,
            batch_size: 0,
            output_dir: String::from_str("out"),
            max_arg_len: 1_000_000,
            max_discovery_passes: 10,
            hash_tool_versions: true,
            warn_symlinks: false,
            allow_missing_dep_auto: false,
            allow_missing_src_dirs: false,
            reject_dot_src_dirs: false,
            command_timeout_secs: 0,
        }
    }
}

/// Range-checks the `[build]` values whose zero would silently break the
/// build: no discovery pass at all, or one file per tool invocation.
pub fn validate_build_config(build: &BuildConfig) -> (r: Result<(), RsconstructError>)
    ensures
        r is Ok <==> build.max_discovery_passes != 0 && build.max_arg_len != 0,
        build.max_discovery_passes == 0 ==> (r matches Err(e) && e.exit_code == RsconstructExitCode::ConfigError
            && e.message@ == "[build] max_discovery_passes must be at least 1 \u{2014} 0 would skip discovery entirely and report an empty build as success"@),
        build.max_discovery_passes != 0 && build.max_arg_len == 0 ==> (r matches Err(e) && e.exit_code == RsconstructExitCode::ConfigError
            && e.message@ == "[build] max_arg_len must be at least 1 \u{2014} 0 would split every batch into one file per tool invocation"@),
{
    if build.max_discovery_passes == 0 {
        return Err(config_error(
            "[build] max_discovery_passes must be at least 1 \u{2014} 0 would skip discovery entirely and report an empty build as success",
        ));
    }
    if build.max_arg_len == 0 {
        return Err(config_error(
            "[build] max_arg_len must be at least 1 \u{2014} 0 would split every batch into one file per tool invocation",
        ));
    }
    Ok(())
}

/// How files are restored from the cache.
#[derive(Debug, Clone, Copy, PartialEq, Eq, Structural)]
pub enum RestoreMethod {
    /// Copy on a CI machine, hard-link otherwise.
    Auto,
    Hardlink,
    Copy,
}

impl Default for RestoreMethod {
    fn default() -> (r: Self)
        ensures
            r == RestoreMethod::Auto,
    {
        RestoreMethod::Auto
    }
}

impl RestoreMethod {
    /// `Auto` made concrete: copy when running under CI (`CI=true`),
    /// hard links otherwise; the other methods stay as they are.
    pub fn resolve(self, running_in_ci: bool) -> (r: Self)
        ensures
            self == RestoreMethod::Auto ==> r == (if running_in_ci {
                RestoreMethod::Copy
            } else {
                RestoreMethod::Hardlink
            }),
            self != RestoreMethod::Auto ==> r == self,
    {
        match self {
            RestoreMethod::Auto => if running_in_ci {
                RestoreMethod::Copy
            } else {
                RestoreMethod::Hardlink
            },
            other => other,
        }
    }
}

/// The `[cache]` section.
#[derive(Debug, Clone)]
pub struct CacheConfig {
    pub restore_method: RestoreMethod,
    /// Compress cached objects.
    pub compression: bool,
    /// Remote cache URL.
    pub remote: Option<String>,
    pub remote_push: bool,
    pub remote_pull: bool,
    /// Skip checksums of files whose modification time did not change.
    pub mtime_check: bool,
    /// Seconds a cached HTTP response stays fresh (0: no web cache).
    pub webcache_ttl_secs: u64,
}

impl Default for CacheConfig {
    /// Automatic restore, no compression, no remote (pushing and pulling
    /// on), modification-time checks on, responses fresh for seven days.
    fn default() -> (r: Self)
        ensures
            r.restore_method == RestoreMethod::Auto,
            !r.compression,
            r.remote is None,
            r.remote_push && r.remote_pull && r.mtime_check,
            r.webcache_ttl_secs == 7 * 24 * 60 * 60,
    {
        CacheConfig {
            restore_method: RestoreMethod::Auto,
            compression: false,
            remote: None,
            remote_push: true,
            remote_pull: true,
            mtime_check: true,
            webcache_ttl_secs: 7 * 24 * 60 * 60,
        }
    }
}

/// The `[completions]` section: the shells to write completions for.
#[derive(Debug, Clone)]
pub struct CompletionsConfig {
    pub shells: Vec<String>,
}

impl Default for CompletionsConfig {
    fn default() -> (r: Self)
        ensures
            crate::text::strs(r.shells@) == seq!["bash"@],
    {
        let mut shells: Vec<String> = Vec::new();
        shells.push(String::from_str("bash"));
        proof {
            assert(crate::text::strs(shells@) =~= seq!["bash"@]);
        }
        CompletionsConfig { shells }
    }
}

/// What a `[processor.NAME]` section turned out to be.
#[derive(Debug, Clone, PartialEq, Eq)]
pub enum SectionShape {
    /// Direct config fields.
    SingleInstance,
    /// Named sub-instances.
    MultiInstance,
    /// Reads as both; the keys that are at once field names and plausible
    /// instance names.
    Ambiguous { colliding: Vec<String> },
}

/// The TOML type a config field expects.
#[derive(Debug, Clone, Copy, PartialEq, Eq, Structural)]
pub enum FieldType {
    String,
    Bool,
    Integer,
    StringArray,
    /// An array of tables.
    TableArray,
    /// An inline table.
    Table,
    /// An array whose elements are not constrained.
    Array,
}

/// How a field type is named in messages.
pub open spec fn field_type_label(t: FieldType) -> Seq<char> {
    match t {
        FieldType::String => "a string"@,
        FieldType::Bool => "a boolean"@,
        FieldType::Integer => "an integer"@,
        FieldType::StringArray => "an array of strings"@,
        FieldType::TableArray => "an array of tables"@,
        FieldType::Table => "a table"@,
        FieldType::Array => "an array"@,
    }
}

/// How a value's type is named in messages.
pub open spec fn value_kind_label(v: TomlValue) -> Seq<char> {
    match v {
        TomlValue::String(_) => "a string"@,
        TomlValue::Integer(_) => "an integer"@,
        TomlValue::Float(..) => "a float"@,
        TomlValue::Boolean(_) => "a boolean"@,
        TomlValue::Datetime(_) => "a datetime"@,
        TomlValue::Array(_) => "an array"@,
        TomlValue::Table(_) => "a table"@,
    }
}

/// Whether a value has the expected type: arrays of strings and arrays of
/// tables check every element.
pub open spec fn field_type_matches(t: FieldType, v: TomlValue) -> bool {
    match t {
        FieldType::String => v is String,
        FieldType::Bool => v is Boolean,
        FieldType::Integer => v is Integer,
        FieldType::StringArray => v matches TomlValue::Array(items) && forall|i: int|
            0 <= i < items@.len() ==> #[trigger] items@[i] is String,
        FieldType::TableArray => v matches TomlValue::Array(items) && forall|i: int|
            0 <= i < items@.len() ==> #[trigger] items@[i] is Table,
        FieldType::Table => v is Table,
        FieldType::Array => v is Array,
    }
}

impl FieldType {
    /// The type's name in messages.
    pub fn label(self) -> (r: &'static str)
        ensures
            r@ == field_type_label(self),
    {
        match self {
            FieldType::String => "a string",
            FieldType::Bool => "a boolean",
            FieldType::Integer => "an integer",
            FieldType::StringArray => "an array of strings",
            FieldType::TableArray => "an array of tables",
            FieldType::Table => "a table",
            FieldType::Array => "an array",
        }
    }

    /// Whether `value` has this type.
    pub fn matches(self, value: &TomlValue) -> (r: bool)
        ensures
            r == field_type_matches(self, *value),
    {
        match self {
            FieldType::String => matches!(value, TomlValue::String(_)),
            FieldType::Bool => matches!(value, TomlValue::Boolean(_)),
            FieldType::Integer => matches!(value, TomlValue::Integer(_)),
            FieldType::StringArray => match value {
                TomlValue::Array(items) => {
                    let mut i: usize = 0;
                    while i < items.len()
                        invariant
                            0 <= i <= items.len(),
                            *value == TomlValue::Array(*items),
                            self == FieldType::StringArray,
                            forall|j: int| 0 <= j < i ==> #[trigger] items@[j] is String,
                        decreases items.len() - i,
                    {
                        if !matches!(&items[i], TomlValue::String(_)) {
                            proof {
                                assert(!(items@[i as int] is String));
                            }
                            return false;
                        }
                        i = i + 1;
                    }
                    true
                },
                _ => false,
            },
            FieldType::TableArray => match value {
                TomlValue::Array(items) => {
                    let mut i: usize = 0;
                    while i < items.len()
                        invariant
                            0 <= i <= items.len(),
                            *value == TomlValue::Array(*items),
                            self == FieldType::TableArray,
                            forall|j: int| 0 <= j < i ==> #[trigger] items@[j] is Table,
                        decreases items.len() - i,
                    {
                        if !matches!(&items[i], TomlValue::Table(_)) {
                            proof {
                                assert(!(items@[i as int] is Table));
                            }
                            return false;
                        }
                        i = i + 1;
                    }
                    true
                },
                _ => false,
            },
            FieldType::Table => matches!(value, TomlValue::Table(_)),
            FieldType::Array => matches!(value, TomlValue::Array(_)),
        }
    }

    /// How the type of `value` is named in messages.
    pub fn describe_value(value: &TomlValue) -> (r: &'static str)
        ensures
            r@ == value_kind_label(*value),
    {
        match value {
            TomlValue::String(_) => "a string",
            TomlValue::Integer(_) => "an integer",
            TomlValue::Float(..) => "a float",
            TomlValue::Boolean(_) => "a boolean",
            TomlValue::Datetime(_) => "a datetime",
            TomlValue::Array(_) => "an array",
            TomlValue::Table(_) => "a table",
        }
    }
}

/// The type every processor's field of this name expects, when the name is
/// one of the shared fields.
pub open spec fn common_field_type(field: Seq<char>) -> Option<FieldType> {
    if field == "src_dirs"@ || field == "src_extensions"@ || field == "src_exclude_dirs"@ || field == "src_exclude_files"@
        || field == "src_exclude_paths"@ || field == "src_files"@ || field == "args"@ || field == "dep_inputs"@ || field
        == "dep_auto"@ || field == "formats"@ {
        Some(FieldType::StringArray)
    } else if field == "max_jobs"@ {
        Some(FieldType::Integer)
    } else if field == "enabled"@ || field == "batch"@ {
        Some(FieldType::Bool)
    } else if field == "command"@ || field == "output_dir"@ {
        Some(FieldType::String)
    } else {
        None
    }
}

/// One custom config field of a processor: its name, type, whether it
/// changes what the processor produces, whether it must be set, and its
/// description.
#[derive(Debug, Clone, Copy)]
pub struct FieldSpec {
    pub name: &'static str,
    pub ty: FieldType,
    pub affects_output: bool,
    pub required: bool,
    pub doc: &'static str,
}

/// The type the first of `fields` named `name`, from position `k` on,
/// gives.
pub open spec fn own_field_type(fields: Seq<FieldSpec>, name: Seq<char>, k: int) -> Option<FieldType>
    decreases fields.len() - k,
{
    if k < 0 || k >= fields.len() {
        None
    } else if fields[k].name@ == name {
        Some(fields[k].ty)
    } else {
        own_field_type(fields, name, k + 1)
    }
}

/// The type a field expects: a shared field's type, else that of the
/// first of the processor's own fields of that name.
pub open spec fn expected_type(field: Seq<char>, fields: Seq<FieldSpec>) -> Option<FieldType> {
    match common_field_type(field) {
        Some(t) => Some(t),
        None => own_field_type(fields, field, 0),
    }
}

/// The scan fields of every processor, validated the same way for all of
/// them and added to each one's known fields.
pub const SCAN_CONFIG_FIELDS: [&'static str; 6] = [
    "src_dirs",
    "src_extensions",
    "src_exclude_dirs",
    "src_exclude_files",
    "src_exclude_paths",
    "src_files",
];

/// The type a processor's config field expects: the shared fields first,
/// then the processor's own field list (`own_fields`, from its plugin
/// entry; the first entry of the name counts); `None` for an unknown field.
pub fn expected_field_type(field: &str, own_fields: &[FieldSpec]) -> (r: Option<FieldType>)
    ensures
        r == expected_type(field@, own_fields@),
{
    let eq = |name: &str| -> (b: bool)
        ensures
            b == (field@ == name@),
        { crate::text::str_eq(field, name) };
    if eq("src_dirs") || eq("src_extensions") || eq("src_exclude_dirs") || eq("src_exclude_files") || eq(
        "src_exclude_paths",
    ) || eq("src_files") || eq("args") || eq("dep_inputs") || eq("dep_auto") || eq("formats") {
        return Some(FieldType::StringArray);
    }
    if eq("max_jobs") {
        return Some(FieldType::Integer);
    }
    if eq("enabled") || eq("batch") {
        return Some(FieldType::Bool);
    }
    if eq("command") || eq("output_dir") {
        return Some(FieldType::String);
    }
    let mut i: usize = 0;
    while i < own_fields.len()
        invariant
            0 <= i <= own_fields.len(),
            common_field_type(field@) is None,
            own_field_type(own_fields@, field@, 0) == own_field_type(own_fields@, field@, i as int),
        decreases own_fields.len() - i,
    {
        if crate::text::str_eq(own_fields[i].name, field) {
            return Some(own_fields[i].ty);
        }
        i = i + 1;
    }
    None
}

/// The first `k` members whose key is listed in `fields`, in order.
pub open spec fn kept_members(members: Seq<(Seq<char>, JsonView)>, fields: Seq<Seq<char>>, k: int) -> Seq<(Seq<char>, JsonView)>
    decreases k,
{
    if k <= 0 || k > members.len() {
        Seq::empty()
    } else if fields.contains(members[k - 1].0) {
        kept_members(members, fields, k - 1).push(members[k - 1])
    } else {
        kept_members(members, fields, k - 1)
    }
}

/// A configuration restricted to the listed fields: an object keeps only
/// the members whose key is listed, in their order; any other value is
/// kept whole.
pub open spec fn kept_fields(v: JsonView, fields: Seq<Seq<char>>) -> JsonView {
    match v {
        JsonView::Object(members) => JsonView::Object(kept_members(members, fields, members.len() as int)),
        _ => v,
    }
}

/// The configuration hash: the SHA-256 digest, in lower-case hex, of the
/// compact JSON text of the configuration restricted to `fields`.
pub open spec fn config_hash_spec(v: JsonView, fields: Seq<Seq<char>>) -> Seq<char> {
    hex_of(sha256_of(vstd::utf8::encode_utf8(json_text(kept_fields(v, fields)))))
}

/// A copy of `value` restricted to the members named in `fields`.
fn keep_fields(value: &JsonValue, fields: &[&str]) -> (r: JsonValue)
    ensures
        json_view(r) == kept_fields(json_view(*value), str_views(fields@)),
{
    match value {
        JsonValue::Object(members) => {
            let ghost mv = members_view(members@, members@.len() as int);
            let ghost fv = str_views(fields@);
            proof {
                lemma_members_view_index(members@, members@.len() as int);
            }
            let mut out: Vec<(String, JsonValue)> = Vec::new();
            let mut i: usize = 0;
            while i < members.len()
                invariant
                    0 <= i <= members.len(),
                    *value == JsonValue::Object(*members),
                    mv == members_view(members@, members@.len() as int),
                    fv == str_views(fields@),
                    mv.len() == members@.len(),
                    forall|j: int| 0 <= j < mv.len() ==> #[trigger] mv[j] == (members@[j].0@, json_view(members@[j].1)),
                    members_view(out@, out@.len() as int) == kept_members(mv, fv, i as int),
                decreases members.len() - i,
            {
                let ghost before = out@;
                assert(mv[i as int] == (members@[i as int].0@, json_view(members@[i as int].1)));
                if strs_contain(fields, members[i].0.as_str()) {
                    let k: String = clone_string(&members[i].0);
                    let x: JsonValue = json_copy(&members[i].1);
                    let ghost e = (k, x);
                    out.push((k, x));
                    proof {
                        lemma_members_view_push(before, e);
                    }
                }
                i = i + 1;
            }
            JsonValue::Object(out)
        },
        _ => json_copy(value),
    }
}

/// The hash of a processor's configuration over its checksum fields only:
/// the configuration (as a JSON value) is restricted to the members named
/// in `checksum_fields`, written as compact JSON, and hashed with SHA-256.
/// Changing a field outside the list leaves the hash unchanged.
pub fn output_config_hash(value: &JsonValue, checksum_fields: &[&str]) -> (r: String)
    ensures
        r@ == config_hash_spec(json_view(*value), str_views(checksum_fields@)),
        r@.len() == 64,
{
    let filtered: JsonValue = keep_fields(value, checksum_fields);
    let json: String = json_to_string(&filtered);
    calculate_checksum_bytes(json.as_str().as_bytes())
}

} // verus!
