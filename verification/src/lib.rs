//! Analysis core of a language server for Miden Assembly.
pub mod assembly;
pub mod build_laws;
pub mod builder;
pub mod completion;
pub mod completion_laws;
pub mod document;
pub mod hint_laws;
pub mod hints;
pub mod identity_laws;
pub mod layout;
pub mod lexing;
pub mod masm_path;
pub mod meaning;
pub mod metadata;
pub mod model;
pub mod order;
pub mod package_bytes;
pub mod package_laws;
pub mod parse_laws;
pub mod parseable;
pub mod parsed;
pub mod pipeline;
pub mod position;
pub mod program_laws;
pub mod project;
pub mod project_laws;
pub mod reference_laws;
pub mod references;
pub mod registry;
pub mod rename;
pub mod rename_laws;
pub mod resolve;
pub mod resolve_laws;
pub mod server;
pub mod signature;
pub mod snapshot;
pub mod snapshot_laws;
pub mod source_laws;
pub mod source_module;
pub mod source_path;
pub mod stack_effect;
pub mod stack_flow_laws;
pub mod stack_laws;
pub mod stack_modules;
pub mod stack_project;
pub mod stack_state;
pub mod stack_step;
pub mod stack_step_laws;
pub mod syntax;
pub mod text;
pub mod text_laws;
pub mod token_laws;
pub mod tokens;
pub mod type_laws;
pub mod wire;
pub mod words;
