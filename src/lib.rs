//! Tracks forbidden imports in Elm projects: finds the import declarations of
//! source files and reconciles them with a recorded list of known usages.

mod aggregate;
mod importfinder;
mod laws;
mod order;
mod paths;
mod reconcile;
mod store;

pub use aggregate::{aggregate, law_same_records_same_map, ImportMap};
pub use importfinder::{
    directories_to_walk, FoundImport, ImportFinder, ImportPattern, Position, ScanError,
};
pub use store::{ForbiddenImport, PathError, Store};
pub use reconcile::{
    all_in_config, current_usages_of, diff_usages, exit_code, CheckResult, ErrorLocation, Usage,
};
pub use laws::{
    law_add_then_remove_root, law_check_all_imports, law_check_counts, law_every_declaration_found, law_import_line,
    law_no_declaration_no_import, law_update_then_check_is_clean,
};
