//! Plans renames of episode files inside "season" directories to the
//! canonical `SxxEyy` form, and holds the decisions of the interactive
//! confirmation protocol. File-system access is left to the caller.
pub mod console;
pub mod patterns;
pub mod plan;
pub mod text;
pub mod walk;

pub use console::{plan_choice, startup_choice, trim_line, PlanChoice, StartupChoice};
pub use patterns::{extract_numbers, is_canonical_episode_name, is_season_path};
pub use plan::{
    build_plan, failures, needs_confirmation, plan_entry, renames, target_for, Candidate, Entry,
};
pub use text::{str_le, to_chars};
pub use walk::{sort_paths, visit_kind, Visit, Walker};
