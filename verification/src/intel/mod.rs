//! Code intelligence over the index: classification heuristics, architecture
//! rules, path finding between symbols and change summaries.
pub mod changes;
pub mod classify;
pub mod git;
pub mod pathfind;
pub mod rules;

pub use classify::{
    is_component_file, is_component_symbol, is_definition_kind, is_handler_file, is_pascal_case,
    is_route_file, is_ui_file, looks_like_api_module, looks_like_data_layer,
    looks_like_server_only, normalize_rel_path, route_path_for_file, semantic_kind,
    semantic_label, short_path,
};
pub use git::{changed_files, find_nul, is_internal_path, is_rename_or_copy_status, parse_git_status_output};
pub use rules::{architecture_violations, has_use_client_directive, matches_directive_prefix, RuleViolation};
pub use pathfind::{find_path, parse_path_query, PathResult, PathStep};
