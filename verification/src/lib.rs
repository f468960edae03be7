//! Shared core of the workstation: the song model, the rules that edit and
//! route it, the indexes the audio thread reads, and the project-file
//! migrations. Every item states its behaviour as a contract.
#![allow(unused_imports)]

pub mod beat;
pub mod document;
pub mod frame_ring;
pub mod json;
pub mod model;
pub mod modulators;
pub mod note_value;
pub mod onset;
pub mod pipe;
pub mod plugin_db;
pub mod plugin_format;
pub mod plugin_metadata;
pub mod plugin_ref;
pub mod port_config;
pub mod process_data;
pub mod project;
pub mod protocol;
pub mod recent;
pub mod recovery;
pub mod routing_deps;
pub mod sampler_ring;
pub mod scale;
pub mod scale_laws;
pub mod scope_bridge;
pub mod setting;
pub mod song_index;
pub mod tempo_map;
pub mod text;
pub mod time;
pub mod timing;
pub mod track_params;
pub mod transpose;
pub mod truepeak;
