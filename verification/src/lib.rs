//! The model core: an architecture model of intent, the plan that edits it, and
//! everything computed from the two.

pub mod abandon_laws;
pub mod basis;
pub mod basis_laws;
pub mod build_edges;
pub mod bytes;
pub mod changes;
pub mod checked;
pub mod commit;
pub mod commit_laws;
pub mod completeness;
pub mod concern_laws;
pub mod concerns;
pub mod counter;
pub mod diff;
pub mod diff_laws;
pub mod digest_laws;
pub mod drift;
pub mod drift_laws;
pub mod ears;
pub mod fold_laws;
pub mod forest_laws;
pub mod graph_laws;
pub mod health;
pub mod health_laws;
pub mod history;
pub mod ids;
pub mod json;
pub mod ledger;
pub mod ledger_laws;
pub mod letters;
pub mod locate;
pub mod locate_laws;
pub mod model;
pub mod modelled;
pub mod named;
pub mod occurrences;
pub mod owner_laws;
pub mod ownership;
pub mod percent;
pub mod plan_laws;
pub mod print_laws;
pub mod record_laws;
pub mod refusals;
pub mod revert_laws;
pub mod rollup;
pub mod rule_laws;
pub mod rules;
pub mod scaffold_laws;
pub mod set_laws;
pub mod settle_laws;
pub mod signoff;
pub mod signoff_laws;
pub mod strmap;
pub mod strset;
pub mod text;
pub mod text_laws;
pub mod untouched_laws;
pub mod use_laws;

pub use commit::{
    commit_element, commit_element_withholding, commit_plan_only_ancestors,
    commit_ready_dependents, commit_ready_dependents_without, fold_built_model, working_view, Built,
    Folded, Swept,
};
pub use ids::{
    is_minted_id, make_link_id, mint_id, mint_id_from, next_group_id, next_group_id_union,
    next_link_id, next_node_id, next_node_id_union, next_responsibility_id,
};
pub use model::{
    directives_rendered, inherited_directives, is_node_empty, test_key, test_resp_id, Directive,
    Group, InheritedDirectives, Kind, Link, Node, Position, Responsibility, SchemaProperty,
    ScryModel, Source, SourceLocation, SCRY_VERSION,
};
