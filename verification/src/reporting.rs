//! The data shapes a report is assembled from.
//!
//! Rendering itself — tables, Markdown, JSON — is the reporting layer's
//! work and stays outside the library; these are the limits, switches and
//! summary records it consumes.

use vstd::prelude::*;

use crate::types::ByteSize;

verus! {

/// How many items each report section shows at most.
#[derive(Clone, Copy, Debug, PartialEq, Eq, Structural)]
pub struct SectionLimits {
    pub top_crates: usize,
    pub top_symbols: usize,
    pub symbol_changes: usize,
    pub build_time_changes: usize,
    pub llvm_functions: usize,
    pub llvm_function_changes: usize,
    pub llvm_crate_changes: usize,
}

impl Default for SectionLimits {
    /// The default limits every section starts from.
    fn default() -> (r: Self)
        ensures
            r.top_crates == 15,
            r.top_symbols == 30,
            r.symbol_changes == 50,
            r.build_time_changes == 15,
            r.llvm_functions == 30,
            r.llvm_function_changes == 50,
            r.llvm_crate_changes == 20,
    {
        SectionLimits {
            top_crates: 15,
            top_symbols: 30,
            symbol_changes: 50,
            build_time_changes: 15,
            llvm_functions: 30,
            llvm_function_changes: 50,
            llvm_crate_changes: 20,
        }
    }
}

/// Which sections a report includes.
#[derive(Clone, Copy, Debug, PartialEq, Eq, Structural)]
pub struct ReportSections {
    pub summary: bool,
    pub crate_size_changes: bool,
    pub build_time_changes: bool,
    pub symbol_changes: bool,
    pub current_top_crates: bool,
    pub current_top_symbols: bool,
    pub llvm_analysis: bool,
    pub llvm_differential: bool,
}

impl Default for ReportSections {
    /// Every section is on by default.
    fn default() -> (r: Self)
        ensures
            r.summary && r.crate_size_changes && r.build_time_changes && r.symbol_changes,
            r.current_top_crates && r.current_top_symbols && r.llvm_analysis
                && r.llvm_differential,
    {
        ReportSections {
            summary: true,
            crate_size_changes: true,
            build_time_changes: true,
            symbol_changes: true,
            current_top_crates: true,
            current_top_symbols: true,
            llvm_analysis: true,
            llvm_differential: true,
        }
    }
}

/// The output formats a report can be rendered in.
#[derive(Clone, Copy, Debug, PartialEq, Eq, Structural)]
pub enum ReportFormat {
    Markdown,
    Json,
    PlainText,
}

/// The size measurements of one build.
#[derive(Clone, Copy, Debug, PartialEq, Eq, Structural)]
pub struct SizeMetrics {
    pub file_size: ByteSize,
    pub text_size: ByteSize,
    pub data_size: Option<ByteSize>,
    pub bss_size: Option<ByteSize>,
}

/// The coarse IR differences between two snapshots.
#[derive(Clone, Copy, Debug, PartialEq, Eq, Structural)]
pub struct LlvmComparison {
    pub total_lines_diff: i64,
    pub total_instantiations_diff: i64,
}

/// How one function's IR totals differ between two snapshots.
#[derive(Clone, Debug)]
pub struct LlvmFunctionChange {
    pub function_name: String,
    pub baseline_lines: usize,
    pub current_lines: usize,
    pub baseline_copies: usize,
    pub current_copies: usize,
}

impl LlvmComparison {
    /// The coarse difference of two IR summaries, from their totals.
    pub fn from_totals(
        baseline_lines: usize,
        baseline_copies: usize,
        current_lines: usize,
        current_copies: usize,
    ) -> (r: LlvmComparison)
        requires
            baseline_lines <= i64::MAX,
            current_lines <= i64::MAX,
            baseline_copies <= i64::MAX,
            current_copies <= i64::MAX,
        ensures
            r.total_lines_diff == current_lines - baseline_lines,
            r.total_instantiations_diff == current_copies - baseline_copies,
    {
        LlvmComparison {
            total_lines_diff: current_lines as i64 - baseline_lines as i64,
            total_instantiations_diff: current_copies as i64 - baseline_copies as i64,
        }
    }
}

} // verus!
