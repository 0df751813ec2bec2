pub mod accept;
pub mod args;
pub mod calendar;
pub mod code_points;
pub mod datetime;
pub mod decline;
pub mod decode;
pub mod document;
pub mod double;
pub mod encode;
pub mod escape;
pub mod float;
pub mod form;
pub mod grammar;
pub mod indent;
pub mod iso;
pub mod key_cache;
pub mod literal;
pub mod layout;
pub mod little_endian;
pub mod loads;
pub mod meaning;
pub mod messages;
pub mod module;
pub mod number;
pub mod numpy;
pub mod offset;
pub mod opts;
pub mod out;
pub mod readable;
pub mod reading;
pub mod round_trip;
pub mod rows;
pub mod sort;
pub mod strfast;
pub mod swar;
pub mod tape;
pub mod types;
pub mod utf8_text;
