pub mod ack_file_writer;
pub mod archive_laws;
pub mod buf;
pub mod crc32c;
pub mod errors;
pub mod file_history;
pub mod flush_attempt;
pub mod flush_laws;
pub mod flush_order;
pub mod format_laws;
pub mod hash;
pub mod interval;
pub mod memory_laws;
pub mod page_pool;
pub mod path_laws;
pub mod pool_history;
pub mod pool_laws;
pub mod range_laws;
pub mod ranges;
pub mod read_laws;
pub mod reader;
pub mod refusal_laws;
pub mod ring_laws;
pub mod rotation_laws;
pub mod store;
pub mod store_header;
pub mod store_header_v1;
pub mod tail_laws;
pub mod text;
pub mod types;
pub mod uintn;
pub mod varint;
pub mod wal_entry;
pub mod wal_entry_v1;
pub mod wal_file;
pub mod wal_header;
pub mod wal_header_v1;
pub mod wal_page;
pub mod wal_arena;
pub mod wal_ring_range;
pub mod wal_ring_v1;
pub mod wal_store;
pub mod words;
pub mod writer;
pub mod writer_buffer;
pub mod writer_laws;
