//! The configuration of the dependency analyzers.

use vstd::prelude::*;
use crate::config::{default_cc_compiler, default_cxx_compiler};

verus! {

/// The C/C++ analyzer that asks the compiler (`-MM`) for dependencies.
#[derive(Debug, Clone)]
pub struct CppAnalyzerConfig {
    pub enabled: bool,
    pub include_paths: Vec<String>,
    pub pkg_config: Vec<String>,
    pub include_path_commands: Vec<String>,
    pub src_exclude_dirs: Vec<String>,
    pub cc: String,
    pub cxx: String,
    pub cflags: Vec<String>,
    pub cxxflags: Vec<String>,
}

impl Default for CppAnalyzerConfig {
    /// Enabled, `gcc` and `g++`, every list empty.
    fn default() -> (r: Self)
        ensures
            r.enabled,
            r.include_paths@.len() == 0 && r.pkg_config@.len() == 0 && r.include_path_commands@.len() == 0,
            r.src_exclude_dirs@.len() == 0 && r.cflags@.len() == 0 && r.cxxflags@.len() == 0,
            r.cc@ == "gcc"@,
            r.cxx@ == "g++"@,
    {
        CppAnalyzerConfig {
            enabled: true,
            include_paths: Vec::new(),
            pkg_config: Vec::new(),
            include_path_commands: Vec::new(),
            src_exclude_dirs: Vec::new(),
            cc: default_cc_compiler(),
            cxx: default_cxx_compiler(),
            cflags: Vec::new(),
            cxxflags: Vec::new(),
        }
    }
}

/// The in-process C/C++ include scanner.
#[derive(Debug, Clone)]
pub struct IcppAnalyzerConfig {
    pub enabled: bool,
    pub include_paths: Vec<String>,
    pub pkg_config: Vec<String>,
    pub include_path_commands: Vec<String>,
    pub src_exclude_dirs: Vec<String>,
    /// Follow `#include <...>` too.
    pub follow_angle_brackets: bool,
    /// Skip includes that do not resolve instead of failing.
    pub skip_not_found: bool,
}

impl Default for IcppAnalyzerConfig {
    /// Enabled, every list empty, both switches off.
    fn default() -> (r: Self)
        ensures
            r.enabled,
            r.include_paths@.len() == 0 && r.pkg_config@.len() == 0 && r.include_path_commands@.len() == 0,
            r.src_exclude_dirs@.len() == 0,
            !r.follow_angle_brackets && !r.skip_not_found,
    {
        IcppAnalyzerConfig {
            enabled: true,
            include_paths: Vec::new(),
            pkg_config: Vec::new(),
            include_path_commands: Vec::new(),
            src_exclude_dirs: Vec::new(),
            follow_angle_brackets: false,
            skip_not_found: false,
        }
    }
}

/// The Python import analyzer.
#[derive(Debug, Clone, Copy)]
pub struct PythonAnalyzerConfig {
    pub enabled: bool,
}

impl Default for PythonAnalyzerConfig {
    fn default() -> (r: Self)
        ensures
            r.enabled,
    {
        PythonAnalyzerConfig { enabled: true }
    }
}

/// The Markdown image-reference analyzer.
#[derive(Debug, Clone, Copy)]
pub struct MarkdownAnalyzerConfig {
    pub enabled: bool,
}

impl Default for MarkdownAnalyzerConfig {
    fn default() -> (r: Self)
        ensures
            r.enabled,
    {
        MarkdownAnalyzerConfig { enabled: true }
    }
}

/// The template include analyzer.
#[derive(Debug, Clone, Copy)]
pub struct TeraAnalyzerConfig {
    pub enabled: bool,
}

impl Default for TeraAnalyzerConfig {
    fn default() -> (r: Self)
        ensures
            r.enabled,
    {
        TeraAnalyzerConfig { enabled: true }
    }
}

} // verus!
