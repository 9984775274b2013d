pub mod aliases;
pub mod body;
pub mod domain;
pub mod effects;
pub mod indexed;
pub mod lemmas;
pub mod place;
pub mod regions;
