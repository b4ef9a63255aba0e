//! Online monitor that checks a stream of concurrency events against a
//! protocol given as a Colored Petri Net.

pub mod order;
pub mod token;
pub mod multiset;
pub mod marking;
pub mod table;
pub mod cpn;
pub mod event;
pub mod config;
pub mod diagnostic;
pub mod runtime;
pub mod netdef;
pub mod text;

pub use crate::config::PetriConfig;
pub use crate::cpn::{ArcSpec, ArcTokenPattern, Binding, CpnEngine, NotEnabled, Transition};
pub use crate::diagnostic::{format_violation, PetriViolation, SpanLike};
pub use crate::event::PetriEvent;
pub use crate::marking::Marking;
pub use crate::multiset::TokenMultiset;
pub use crate::netdef::{ArcDef, ArcTokenDef, JsonValue, NetDef, TransitionDef};
pub use crate::runtime::PetriRuntime;
pub use crate::token::Token;
