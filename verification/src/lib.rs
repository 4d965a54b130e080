//! A single-threaded, multi-type keyspace with lazy expiration, memory
//! accounting and eviction.
//!
//! Every public function carries a contract over mathematical models of the
//! data it works on: byte strings are sequences, hashes are maps, sets are
//! sets, lists are sequences, sorted sets are maps to scores, streams are
//! finite maps ordered by entry id.
//!
//! Time and disk are the caller's. [`Store::set_clock_ns`] and
//! [`Store::set_wall_clock_ms`] tell the store what time it is. A value can
//! leave memory for a log or a row segment that the caller keeps; a stub
//! stays in its place. Commands on strings and hashes answer
//! [`StoreError::NotInMemory`] for a stub of their type, so before one of
//! them the caller asks [`Store::cold_step`] what to do: nothing, serve the
//! value from its record (decoded, in a store of its own), or put it back with
//! [`Store::promote_in_place`]. Commands on keys (expiry, deletion, type,
//! scanning) treat a stub as the value that it stands for. A stub of the log
//! also moves with its key when that is renamed. A row of a row segment does
//! not, since the segment knows it by its key: [`Store::rename_step`] tells
//! of one that has to be put back first. No stub leaves its store, which
//! [`Store::move_step`] is for.
pub mod bitmap;
pub mod byte_map;
pub mod bytes;
pub mod cold;
pub mod count;
pub mod entry;
pub mod error;
pub mod evict;
pub mod id_map;
pub mod laws;
pub mod le;
pub mod list;
pub mod list_data;
pub mod list_seg;
pub mod packed;
pub mod packed_row;
pub mod payload;
pub mod rng;
pub mod score;
pub mod seg_map;
pub mod segrows;
pub mod shared;
pub mod small_hash;
pub mod small_list;
pub mod small_set;
pub mod small_zset;
pub mod sorted;
pub mod store;
pub mod stream;
pub mod stream_claim;
pub mod stream_group;
pub mod stream_id;
pub mod stream_load;
pub mod stream_ops;
pub mod stream_read;
pub mod table;
pub mod text;
pub mod tier;
pub mod tier_codec;
pub mod types;
pub mod value;
pub mod value_hash;
pub mod value_list;
pub mod value_set;
pub mod value_zset;
pub mod weigh;

pub use bitmap::{bitop_combine, BitOp};
pub use cold::{Backing, ColdKind, ColdRef, RecordRef};
pub use error::{ErrorKind, KevyError, KevyResult};
pub use packed_row::{ColumnNames, PackedRow};
pub use score::Score;
pub use segrows::{SealedRows, SegError};
pub use small_hash::{SmallHashData, SmallHashIter};
pub use small_list::{SmallListData, SmallListIter};
pub use small_set::{SmallSetData, SmallSetIter};
pub use small_zset::{SmallZSetData, SmallZSetIter};
pub use store::expire::ExpireStats;
pub use store::hash_ttl::{HExpireCode, HExpireCond};
pub use store::peeking::{PeekRow, Peeked};
pub use store::segmented::apply_segmented;
pub use store::snapshot::SnapshotView;
pub use store::strings::{GetReply, GetShared};
pub use store::tiering::{Access, ColdStep};
pub use store::{KeyspaceEvent, Store};
pub use stream::{AutoclaimResult, EntryBatch, LoadedGroup, LoadedPelEntry, LoadedStreamEntry};
pub use stream::StreamData;
pub use stream_group::{ConsumerGroup, ConsumerState, GroupCreateMode, PelEntry, PendingExtended};
pub use stream_group::{PendingExtendedRow, PendingSummary, ReadGroupId, XClaimOpts};
pub use stream_id::{parse_explicit_id, parse_range_end, parse_range_start, parse_xadd_id};
pub use stream_id::{StreamId, StreamIdError, XAddIdSpec};
pub use text::glob_match;
pub use tier::{LogGauges, SpillRun, TierStats};
pub use types::{EvictionPolicy, RenameOutcome, StoreError};
pub use value::Value;
pub use value_zset::ScoreBound;
