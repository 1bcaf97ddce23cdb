//! A compact, immutable XML document store with E4X-style queries, a binary
//! row-set reader, and spreadsheet export.

pub mod builder;
pub mod bytes;
pub mod cell_text;
pub mod cells;
pub mod collapse;
pub mod crc;
pub mod csv;
pub mod csv_read;
pub mod decimal;
pub mod deflate;
pub mod doc;
pub mod event_steps;
pub mod events;
pub mod export;
pub mod export_args;
pub mod export_utils;
pub mod header;
pub mod inflate;
pub mod laws;
pub mod markup;
pub mod multiname;
pub mod node;
pub mod node_arena;
pub mod node_data;
pub mod node_text;
pub mod node_walk;
pub mod node_xml;
pub mod order;
pub mod parse;
pub mod queries;
pub mod resp_as_xml;
pub mod resp_model;
pub mod resp_stream;
pub mod resp_wire;
pub mod rewrite;
pub mod rowset;
pub mod serialize;
pub mod sheet;
pub mod sort_keyed;
pub mod sort_rows;
pub mod store;
pub mod str_arena;
pub mod styles;
pub mod text;
pub mod tree;
pub mod tree_view;
pub mod xml_object;
pub mod xml_read_only;
pub mod xml_reader;
pub mod xml_tree;
pub mod zip;

pub use builder::NsDeclReadOnly;
pub use events::ParseSettings;
pub use multiname::E4XNamespace;
pub use multiname::Multiname;
pub use multiname::NamespaceRef;
pub use node::E4XNodeReadOnly;
pub use node_arena::NODE_CHUNK_LEN;
pub use node_data::E4XNodeDataReadOnly;
pub use node_data::E4XNodeKindReadOnly;
pub use node_data::NO_NODE;
pub use node_data::VIRTUAL_TEXT;
pub use resp_stream::RespStreamBuilder;
pub use store::E4XStoreReadOnly;
pub use xml_object::XmlObjectReadOnly;
