pub mod progress;
pub mod queue;
pub mod store;
pub mod text;
pub mod order;
pub mod flags;
pub mod playlists;
pub mod observation;
pub mod tags;
pub mod dates;
pub mod metadata;
pub mod http;
pub mod riff;
pub mod transport;
pub mod fade;
pub mod service;
pub mod tag_service;
pub mod library;
pub mod command;
pub mod probe;
