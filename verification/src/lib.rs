//! A PDF object-model library: a document owns a graph of typed PDF objects
//! (null, boolean, integer, real, string, name, array, dictionary, stream,
//! operator, inline image), issues handles to nodes of that graph, and offers
//! typed accessors, structural views, a textual-object parser, and a writer
//! that serializes the graph to bytes.
//!
//! Every operation is specified by a contract and verified.

mod document;
mod error;
mod laws;
mod object;
mod parse;
mod render;
mod views;
mod writer;

pub use document::Qpdf;
pub use error::QpdfError;
pub use laws::law_array_push_appends;
pub use laws::law_array_set_keeps_others;
pub use laws::law_binary_string_round_trip;
pub use laws::law_dict_set_get_indirect;
pub use laws::law_dict_set_get_scalar;
pub use laws::law_bool_round_trip;
pub use laws::law_integer_round_trip;
pub use laws::law_make_indirect_idempotent;
pub use laws::law_name_round_trip;
pub use laws::law_real_round_trip;
pub use laws::law_scalar_text;
pub use laws::law_string_round_trip;
pub use laws::law_utf8_binary_encoding;
pub use laws::law_utf8_string_bytes;
pub use views::QpdfArray;
pub use views::QpdfDictionary;
pub use views::QpdfObjectLike;
pub use views::QpdfStream;
pub use views::StreamDecodeLevel;
pub use writer::ObjectStreamMode;
pub use writer::QpdfWriter;
pub use writer::StreamDataMode;
pub use writer::lemma_header_read_back;
pub use object::QpdfChild;
pub use object::QpdfDictEntry;
pub use object::QpdfNode;
pub use object::QpdfObject;
pub use object::QpdfObjectType;
pub use object::QpdfValue;
