//! An incremental parser for Sublime Text syntax definitions.
//!
//! [`ParseState`] interprets the contexts of a [`SyntaxSet`] line by line and
//! returns, for every line, the operations that change the scope stack.
//! `branch_point` / `fail` speculation may revise lines that were already handed
//! out; [`CommittedParser`] holds lines back until they are final.
//!
//! Every function states in its contract what it does to the model of its
//! arguments. The models of the parser's steps are in [`engine`], those of whole
//! lines in [`parser`] and [`committed`]. What holds of the parser as a whole is
//! proved in [`steps`], [`window`], [`order`], [`ordinary`], [`lines`], [`clears`],
//! [`linked`], [`grounded`] and [`committed`]. What a single step does is proved in
//! [`choice`] (which match it takes), [`effects`] (what that does to the stack of
//! contexts), [`coloring`] and [`layers`] (what it does to the scopes), [`fails`] (how a
//! `fail` goes back), [`versions`] (which correction of a line stands), [`passage`] (the
//! end of an embed and of a line) and [`outputs`] (what is handed out).

pub mod branches;
pub mod cache;
pub mod captures;
pub mod choice;
pub mod clears;
pub mod coloring;
pub mod committed;
pub mod corrections;
pub mod effects;
pub mod embed;
pub mod emit;
pub mod engine;
pub mod executor;
pub mod fails;
pub mod grounded;
pub mod layers;
pub mod lines;
pub mod linked;
pub mod order;
pub mod ordinary;
pub mod outputs;
pub mod parser;
pub mod passage;
pub mod perform;
pub mod regex;
pub mod repository;
pub mod scope;
pub mod search;
pub mod semantics;
pub mod speculation;
pub mod state;
pub mod steps;
pub mod syntax;
pub mod text;
pub mod versions;
pub mod views;
pub mod window;

pub use committed::CommittedParser;
pub use parser::ParseLineOutput;
pub use scope::{Scope, ScopeStack, ScopeStackOp};
pub use state::{ParseState, ParseWarning};
pub use syntax::{ParsingError, SyntaxReference, SyntaxSet};
