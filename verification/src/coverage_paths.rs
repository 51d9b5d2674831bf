//! Where coverage reports are looked for.

use vstd::prelude::*;

verus! {

/// The paths below a project root at which a coverage report may stand, each
/// with the format it is read as.
pub const COVERAGE_SEARCH_PATHS: [(&'static str, &'static str); 8] = [
    ("lcov.info", "lcov"),
    ("coverage/lcov.info", "lcov"),
    (".nyc_output/lcov.info", "lcov"),
    (".coverage", "python"),
    ("coverage.out", "go"),
    ("coverage/coverage.out", "go"),
    ("coverage.xml", "cobertura"),
    ("coverage/coverage.xml", "cobertura"),
];

} // verus!
