//! Document outline resolution for a code editor: symbol trees reported by a
//! language server are flattened into depth-annotated outline items, decorated
//! with syntax highlights located in the buffer text, cached per buffer, and
//! filtered to the chain of symbols enclosing a cursor.
//!
//! Beside the outline engine stand the editor's neighbours that share its
//! crate: the docker command lines of dev containers, the audio device
//! choice of the settings pages, and a settings file migration.

pub mod audio_devices;
pub mod dev_container;
pub mod editor;
pub mod highlight;
pub mod locator;
pub mod outline;
pub mod position;
pub mod search;
pub mod settings_json;
pub mod settings_migration;
pub mod symbols;

