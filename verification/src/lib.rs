//! Registering a Windows application with the registry of the current user: as a
//! default program, for URL protocols, for file extensions, and in the list of
//! installed programs.
//!
//! Each operation takes what is known of the application, a [`Locator`], and
//! returns a [`Plan`] of requests to the registry. A [`Session`] hands these out one
//! by one, takes the replies, and says in the end how the operation went; the
//! registry itself is accessed by the caller.
//!
//! The modules [`run`], [`compose`], [`order`] and [`confine`] say what a plan does
//! under any sequence of replies, and [`contents`] what that does to what the registry
//! holds. What holds of each operation is proved in its module, or in
//! [`protocol_laws`], [`association_laws`] and [`content_laws`]. What strings hold,
//! what plans show and what each operation asks for is proved in [`wording`],
//! [`plan_laws`] and [`request_laws`].
pub mod association_laws;
pub mod changes;
pub mod clock;
pub mod compose;
pub mod confine;
pub mod content_laws;
pub mod contents;
pub mod custom_protocols;
pub mod default_program;
pub mod file_associations;
pub mod keys;
pub mod locator;
pub mod order;
pub mod plan;
pub mod plan_laws;
pub mod protocol_laws;
pub mod request_laws;
pub mod run;
pub mod session;
pub mod text;
pub mod uninstall;
pub mod wording;

pub use crate::custom_protocols::{create_or_update_custom_protocols, remove_all_custom_protocols};
pub use crate::default_program::{register_default_program, unregister_default_program};
pub use crate::file_associations::{
    create_or_update_file_associations, remove_all_file_associations,
};
pub use crate::locator::Locator;
pub use crate::plan::{Access, Failure, Key, Plan, Reply, Request, Value};
pub use crate::session::Session;
pub use crate::uninstall::{remove_uninstall_entry, write_uninstall_entry};
