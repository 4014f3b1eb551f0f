//! Library statistics derived from volume enumeration.
//!
//! Volume discovery, directory sizing and the database upsert are I/O and
//! live with the caller; this module holds the arithmetic that turns the
//! enumerated volumes and measured directory sizes into the statistics
//! record for a library.

use vstd::prelude::*;

verus! {

/// One storage volume as reported by the platform: its total size and how
/// much of it is still free.
pub struct Volume {
    pub total_capacity: u64,
    pub available_capacity: u64,
}

impl Volume {
    /// A volume never has more space available than it has in total.
    pub open spec fn wf(self) -> bool {
        self.available_capacity <= self.total_capacity
    }
}

/// Sum of the total capacities of a sequence of volumes.
pub open spec fn spec_total_capacity(vs: Seq<Volume>) -> int
    decreases vs.len(),
{
    if vs.len() == 0 {
        0
    } else {
        spec_total_capacity(vs.drop_last()) + vs.last().total_capacity
    }
}

/// Sum of the available capacities of a sequence of volumes.
pub open spec fn spec_available_capacity(vs: Seq<Volume>) -> int
    decreases vs.len(),
{
    if vs.len() == 0 {
        0
    } else {
        spec_available_capacity(vs.drop_last()) + vs.last().available_capacity
    }
}

/// On well-formed volumes the free space never exceeds the capacity,
/// summed over any set of volumes.
pub proof fn lemma_available_le_total(vs: Seq<Volume>)
    requires
        forall|i: int| 0 <= i < vs.len() ==> (#[trigger] vs[i]).wf(),
    ensures
        0 <= spec_available_capacity(vs) <= spec_total_capacity(vs),
    decreases vs.len(),
{
    if vs.len() > 0 {
        lemma_available_le_total(vs.drop_last());
    }
}

/// The statistics record kept for a library.  Each library is its own
/// database, so the record always carries id 1; object and unique-byte
/// counts are not computed by this pass and are recorded as zero.
pub struct StatisticsUpdate {
    pub id: i32,
    pub date_captured: i64,
    pub total_object_count: u64,
    pub library_db_size: u64,
    pub total_bytes_used: u64,
    pub total_bytes_capacity: u64,
    pub total_unique_bytes: u64,
    pub total_bytes_free: u64,
    pub preview_media_bytes: u64,
}

/// Build the statistics record for a library from the enumerated volumes
/// and the measured sizes of the library database and thumbnail folder.
///
/// The capacity fields are the sums over all volumes, and the used bytes
/// are exactly the capacity minus the free space.
pub fn update_library_statistics(
    volumes: &Vec<Volume>,
    library_db_size: u64,
    thumbnail_folder_size: u64,
    date_captured: i64,
) -> (r: StatisticsUpdate)
    requires
        forall|i: int| 0 <= i < volumes@.len() ==> (#[trigger] volumes@[i]).wf(),
        spec_total_capacity(volumes@) <= u64::MAX,
    ensures
        r.id == 1,
        r.date_captured == date_captured,
        r.total_object_count == 0,
        r.total_unique_bytes == 0,
        r.library_db_size == library_db_size,
        r.preview_media_bytes == thumbnail_folder_size,
        r.total_bytes_capacity == spec_total_capacity(volumes@),
        r.total_bytes_free == spec_available_capacity(volumes@),
        r.total_bytes_used == spec_total_capacity(volumes@) - spec_available_capacity(volumes@),
{
    let mut total_capacity: u64 = 0;
    let mut available_capacity: u64 = 0;
    let mut i: usize = 0;
    while i < volumes.len()
        invariant
            0 <= i <= volumes@.len(),
            forall|j: int| 0 <= j < volumes@.len() ==> (#[trigger] volumes@[j]).wf(),
            spec_total_capacity(volumes@) <= u64::MAX,
            total_capacity == spec_total_capacity(volumes@.take(i as int)),
            available_capacity == spec_available_capacity(volumes@.take(i as int)),
        decreases volumes@.len() - i,
    {
        proof {
            assert(volumes@.take(i + 1).drop_last() =~= volumes@.take(i as int));
            lemma_total_capacity_prefix_le(volumes@, i + 1);
            lemma_available_le_total(volumes@.take(i + 1));
        }
        total_capacity = total_capacity + volumes[i].total_capacity;
        available_capacity = available_capacity + volumes[i].available_capacity;
        i = i + 1;
    }
    proof {
        assert(volumes@.take(volumes@.len() as int) =~= volumes@);
        lemma_available_le_total(volumes@);
    }
    let total_bytes_used = total_capacity - available_capacity;
    StatisticsUpdate {
        id: 1,
        date_captured,
        total_object_count: 0,
        library_db_size,
        total_bytes_used,
        total_bytes_capacity: total_capacity,
        total_unique_bytes: 0,
        total_bytes_free: available_capacity,
        preview_media_bytes: thumbnail_folder_size,
    }
}

/// The capacity summed over a prefix of the volumes never exceeds the
/// capacity summed over all of them.
proof fn lemma_total_capacity_prefix_le(vs: Seq<Volume>, n: int)
    requires
        0 <= n <= vs.len(),
    ensures
        spec_total_capacity(vs.take(n)) <= spec_total_capacity(vs),
    decreases vs.len() - n,
{
    if n < vs.len() {
        lemma_total_capacity_prefix_le(vs, n + 1);
        assert(vs.take(n + 1).drop_last() =~= vs.take(n));
        assert(spec_total_capacity(vs.take(n)) <= spec_total_capacity(vs.take(n + 1)));
    } else {
        assert(vs.take(n) =~= vs);
    }
}

} // verus!
