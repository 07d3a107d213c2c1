use vstd::prelude::*;

use skiplist::SkipMap;

use crate::error::LogError;
use crate::header::HEADER_SIZE;
use crate::log_segment::{restored_segment, LogSegment, SegmentModel};
use crate::segment_id::{
    key_lt, next_segment_id_pos, parse_filename, segment_id_from_filename, SegmentId,
};

verus! {

/// A segment identifier as the `(position, generation)` pair it orders by.
pub type SegmentKey = (u64, u64);

/// The ordered index of a log's segments, keyed by `(position, generation)`
/// in the natural order of the pair.
#[verifier::external_body]
pub struct SegmentIndex {
    map: SkipMap<SegmentKey, LogSegment>,
}

/// The contents of an empty index.
pub open spec fn no_segments() -> Map<SegmentKey, SegmentModel> {
    Map::empty()
}

/// What the segment index holds: each identifier key with its segment.
pub uninterp spec fn segment_map(m: SegmentIndex) -> Map<SegmentKey, SegmentModel>;

/// Relies on `SkipMap::new`: a new map is empty.
#[verifier::external_body]
fn index_new() -> (r: SegmentIndex)
    ensures
        segment_map(r) == no_segments(),
{
    SegmentIndex { map: SkipMap::new() }
}

/// Relies on `SkipMap::insert`: afterwards the key maps to the new value,
/// whether or not it was present, and every other entry stays.
#[verifier::external_body]
fn index_insert(m: &mut SegmentIndex, key: SegmentKey, segment: LogSegment)
    ensures
        segment_map(*final(m)) == segment_map(*old(m)).insert(key, segment@),
{
    m.map.insert(key, segment);
}

/// Relies on `SkipMap::contains_key`: whether the key has an entry.
#[verifier::external_body]
fn index_contains(m: &SegmentIndex, key: SegmentKey) -> (r: bool)
    ensures
        r == segment_map(*m).contains_key(key),
{
    m.map.contains_key(&key)
}

/// Relies on `SkipMap::last_key_value`: the entry with the greatest key in
/// the pair's natural (lexicographic) order, or `None` for an empty map.
#[verifier::external_body]
fn index_last(m: &SegmentIndex) -> (r: Option<(SegmentKey, LogSegment)>)
    ensures
        r is None <==> segment_map(*m) == no_segments(),
        r is Some ==> is_greatest_in(segment_map(*m).dom(), r->Some_0.0),
        r is Some ==> segment_map(*m)[r->Some_0.0] == r->Some_0.1@,
{
    m.map.last_key_value().map(|(k, v)| (*k, *v))
}

/// `k` belongs to `s` and no key of `s` is greater.
pub open spec fn is_greatest_in(s: Set<SegmentKey>, k: SegmentKey) -> bool {
    s.contains(k) && forall|k2: SegmentKey| s.contains(k2) ==> !key_lt(k, k2)
}

/// The sum of the capacities of the segments under `keys`.
pub open spec fn sum_capacities(keys: Seq<SegmentKey>, m: Map<SegmentKey, SegmentModel>) -> int
    decreases keys.len(),
{
    if keys.len() == 0 {
        0
    } else {
        sum_capacities(keys.drop_last(), m) + m[keys.last()].capacity
    }
}

/// A segment whose cursor stands at its capacity, so that nothing more is
/// appended to it.
pub open spec fn sealed(s: SegmentModel) -> SegmentModel {
    SegmentModel { end: s.capacity, ..s }
}

/// A segment file found in a log's directory: its name and the header bytes
/// read from its start.
pub struct SegmentFile {
    pub filename: String,
    pub header: Vec<u8>,
}

/// What one segment file restores to on its own: its name must parse, and
/// its header must check and record a capacity with room for payload.
#[verifier::opaque]
pub open spec fn file_outcome(f: SegmentFile) -> Result<SegmentModel, LogError> {
    match parse_filename(f.filename@) {
        Err(e) => Err(e),
        Ok(id) => restored_segment(id, f.header@),
    }
}

/// The capacity a file contributes to the space in use: its segment's, or
/// nothing when it does not restore.
pub open spec fn file_capacity(f: SegmentFile) -> int {
    match file_outcome(f) {
        Ok(s) => s.capacity as int,
        Err(_) => 0,
    }
}

pub open spec fn capacity_step() -> spec_fn(int, SegmentFile) -> int {
    |acc: int, f: SegmentFile| acc + file_capacity(f)
}

/// The sum of the capacities of the files' segments.
pub open spec fn files_capacity(files: Seq<SegmentFile>) -> int {
    files.fold_left(0int, capacity_step())
}

/// One of the first `n` files fails to restore with `e`.
pub open spec fn fails_with(files: Seq<SegmentFile>, n: int, e: LogError) -> bool {
    exists|j: int| 0 <= j < n && #[trigger] file_outcome(files[j]) == Err::<SegmentModel, LogError>(e)
}

/// File `j`, one of the first `n`, restores to a segment under key `k`.
pub open spec fn names_key(files: Seq<SegmentFile>, n: int, j: int, k: SegmentKey) -> bool {
    &&& 0 <= j < n
    &&& file_outcome(files[j]) is Ok
    &&& file_outcome(files[j])->Ok_0.id.spec_key() == k
}

/// Two of the first `n` files restore to segments with the same identifier.
pub open spec fn has_duplicate(files: Seq<SegmentFile>, n: int) -> bool {
    exists|a: int, b: int|
        #![trigger file_outcome(files[a]), file_outcome(files[b])]
        0 <= a < b < n && file_outcome(files[a]) is Ok && file_outcome(files[b]) is Ok
            && file_outcome(files[a])->Ok_0.id == file_outcome(files[b])->Ok_0.id
}

/// Why the files found in a directory cannot be restored, whatever order
/// they are listed in: a malformed name comes first, then an unknown
/// version, a failed checksum, a capacity with no room for payload, and
/// last two files naming the same identifier.
pub open spec fn bootstrap_error(files: Seq<SegmentFile>) -> Option<LogError> {
    let n = files.len() as int;
    if fails_with(files, n, LogError::MalformedSegmentName) {
        Some(LogError::MalformedSegmentName)
    } else if fails_with(files, n, LogError::UnsupportedVersion) {
        Some(LogError::UnsupportedVersion)
    } else if fails_with(files, n, LogError::CorruptHeader) {
        Some(LogError::CorruptHeader)
    } else if fails_with(files, n, LogError::InvalidCapacity) {
        Some(LogError::InvalidCapacity)
    } else if has_duplicate(files, n) {
        Some(LogError::DuplicateSegment)
    } else {
        None
    }
}

/// The segments the files restore to, sealed, by identifier key.
pub open spec fn restored_map(files: Seq<SegmentFile>) -> Map<SegmentKey, SegmentModel> {
    Map::new(
        |k: SegmentKey| exists|j: int| names_key(files, files.len() as int, j, k),
        |k: SegmentKey|
            sealed(
                file_outcome(files[choose|j: int| names_key(files, files.len() as int, j, k)])->Ok_0,
            ),
    )
}

/// Where the bytes of one write go: the segment, the file offset at which
/// they start, and how many of them fit.
#[derive(Clone, Copy, PartialEq, Eq, Structural, Debug)]
pub struct WriteTarget {
    pub id: SegmentId,
    pub offset: u64,
    pub len: u64,
}

/// The write target at the cursor of a segment for a write of `len` bytes.
pub open spec fn target_of(s: SegmentModel, len: u64) -> WriteTarget {
    WriteTarget { id: s.id, offset: s.end, len: s.room_for(len) }
}

/// The segments of one storage directory within a total capacity budget.
/// The segment with the greatest identifier is the active one, which every
/// write goes to.
pub struct Log {
    data_dir: String,
    capacity_in_bytes: u64,
    segment_capacity_in_bytes: u64,
    available_space_in_bytes: u64,
    segments_by_name: SegmentIndex,
    order: Ghost<Seq<SegmentKey>>,
}

impl Log {
    /// The segments, by identifier key.
    pub closed spec fn segments(&self) -> Map<SegmentKey, SegmentModel> {
        segment_map(self.segments_by_name)
    }

    /// The identifier keys, in the order their segments joined the log.
    pub closed spec fn keys(&self) -> Seq<SegmentKey> {
        self.order@
    }

    pub closed spec fn total(&self) -> u64 {
        self.capacity_in_bytes
    }

    pub closed spec fn segment_capacity(&self) -> u64 {
        self.segment_capacity_in_bytes
    }

    pub closed spec fn available(&self) -> u64 {
        self.available_space_in_bytes
    }

    pub closed spec fn dir(&self) -> Seq<char> {
        self.data_dir@
    }

    /// The key of the active segment: the greatest one.
    pub open spec fn active_key(&self) -> SegmentKey {
        choose|k: SegmentKey| is_greatest_in(self.segments().dom(), k)
    }

    pub open spec fn active(&self) -> SegmentModel {
        self.segments()[self.active_key()]
    }

    /// The log is never empty, each segment is well formed and filed under
    /// its own identifier, and the capacities of all segments plus the space
    /// still available make up the total budget.
    pub open spec fn wf(&self) -> bool {
        &&& self.keys().len() > 0
        &&& self.keys().no_duplicates()
        &&& forall|k: SegmentKey| #[trigger]
            self.segments().contains_key(k) <==> self.keys().contains(k)
        &&& forall|k: SegmentKey| #[trigger]
            self.segments().contains_key(k) ==> self.segments()[k].wf()
                && self.segments()[k].id.spec_key() == k
        &&& exists|k: SegmentKey| is_greatest_in(self.segments().dom(), k)
        &&& sum_capacities(self.keys(), self.segments()) + self.available() == self.total()
    }

    /// The same directory and budget settings.
    pub open spec fn same_settings(&self, other: &Log) -> bool {
        &&& other.total() == self.total()
        &&& other.segment_capacity() == self.segment_capacity()
        &&& other.dir() == self.dir()
    }

    /// A write of `write_size` bytes does not fit in the active segment.
    pub open spec fn needs_rollover(&self, write_size: u64) -> bool {
        self.active().remaining() < write_size
    }

    /// Why a rollover cannot happen, if it cannot: the budget has no room
    /// for another full-size segment, the position cannot grow, or the
    /// segment capacity leaves no room for payload.
    pub open spec fn rollover_error(&self) -> Option<LogError> {
        if self.available() < self.segment_capacity() {
            Some(LogError::OutOfCapacity)
        } else if self.active_key().0 == u64::MAX {
            Some(LogError::OutOfCapacity)
        } else if self.segment_capacity() <= HEADER_SIZE {
            Some(LogError::InvalidCapacity)
        } else {
            None
        }
    }

    /// The key after the active one by position.
    pub open spec fn next_key(&self) -> SegmentKey {
        ((self.active_key().0 + 1) as u64, self.active_key().1)
    }

    /// `after` is this log with one more segment, fresh and full-size, under
    /// the next key, and its capacity taken from the available space.
    pub open spec fn rolled_over_to(&self, after: &Log) -> bool {
        let k = self.next_key();
        &&& after.segments() == self.segments().insert(
            k,
            SegmentModel::fresh(SegmentId { pos: k.0, gen: k.1 }, self.segment_capacity()),
        )
        &&& after.keys() == self.keys().push(k)
        &&& after.available() == self.available() - self.segment_capacity()
        &&& self.same_settings(after)
        &&& after.active_key() == k
        &&& key_lt(self.active_key(), after.active_key())
    }

    /// Bootstraps the log of a directory from the segment files found in it.
    /// With none, the log starts with one fresh segment `{0, 0}`, whose file
    /// the caller creates, pre-allocates and writes the header of. Otherwise
    /// every file is restored; restored segments are sealed, so that payload
    /// already on disk is never written over and new writes go to a new
    /// segment. The order in which the files are listed does not matter: the
    /// error reported is the first kind of `bootstrap_error`'s precedence met
    /// by any file. The segments' capacities must fit the total budget; what
    /// is left is the available space.
    #[verifier::rlimit(100)]
    #[verifier::spinoff_prover]
    pub fn new(
        data_dir: &str,
        total_capacity_in_bytes: u64,
        segment_capacity_in_bytes: u64,
        found: &Vec<SegmentFile>,
    ) -> (r: Result<Log, LogError>)
        ensures
            r is Ok ==> r->Ok_0.wf(),
            r is Ok ==> r->Ok_0.total() == total_capacity_in_bytes,
            r is Ok ==> r->Ok_0.segment_capacity() == segment_capacity_in_bytes,
            r is Ok ==> r->Ok_0.dir() == data_dir@,
            found@.len() == 0 && segment_capacity_in_bytes <= HEADER_SIZE ==> r == Err::<
                Log,
                LogError,
            >(LogError::InvalidCapacity),
            found@.len() == 0 && HEADER_SIZE < segment_capacity_in_bytes
                && total_capacity_in_bytes < segment_capacity_in_bytes ==> r == Err::<
                Log,
                LogError,
            >(LogError::CapacityExceeded),
            found@.len() == 0 && HEADER_SIZE < segment_capacity_in_bytes
                <= total_capacity_in_bytes ==> {
                &&& r is Ok
                &&& r->Ok_0.segments() == map![(0u64, 0u64) => SegmentModel::fresh(
                    (SegmentId { pos: 0, gen: 0 }),
                    segment_capacity_in_bytes,
                )]
                &&& r->Ok_0.available() == total_capacity_in_bytes - segment_capacity_in_bytes
            },
            found@.len() > 0 ==> match bootstrap_error(found@) {
                Some(e) => r == Err::<Log, LogError>(e),
                None => if files_capacity(found@) > total_capacity_in_bytes {
                    r == Err::<Log, LogError>(LogError::CapacityExceeded)
                } else {
                    &&& r is Ok
                    &&& r->Ok_0.segments() == restored_map(found@)
                    &&& r->Ok_0.available() == total_capacity_in_bytes - files_capacity(found@)
                },
            },
    {
        let mut index = index_new();
        if found.len() == 0 {
            let id = SegmentId { pos: 0, gen: 0 };
            let segment = LogSegment::new(id, segment_capacity_in_bytes)?;
            if total_capacity_in_bytes < segment_capacity_in_bytes {
                return Err(LogError::CapacityExceeded);
            }
            index_insert(&mut index, id.key(), segment);
            let ghost keys = seq![(0u64, 0u64)];
            let log = Log {
                data_dir: data_dir.to_owned(),
                capacity_in_bytes: total_capacity_in_bytes,
                segment_capacity_in_bytes,
                available_space_in_bytes: total_capacity_in_bytes - segment_capacity_in_bytes,
                segments_by_name: index,
                order: Ghost(keys),
            };
            proof {
                let m = log.segments();
                assert(m =~= map![(0u64, 0u64) => segment@]);
                assert(keys.drop_last() =~= Seq::<SegmentKey>::empty());
                assert(sum_capacities(keys.drop_last(), m) == 0);
                assert(keys.last() == (0u64, 0u64));
                assert(m[(0u64, 0u64)].capacity == segment_capacity_in_bytes);
                assert(sum_capacities(keys, m) == segment_capacity_in_bytes);
                assert(keys.contains((0u64, 0u64)));
                assert(is_greatest_in(m.dom(), (0u64, 0u64)));
                assert forall|k: SegmentKey| #[trigger]
                    m.contains_key(k) <==> keys.contains(k) by {
                    if keys.contains(k) {
                        let j = choose|j: int| 0 <= j < keys.len() && keys[j] == k;
                        assert(j == 0);
                    }
                }
            }
            return Ok(log);
        }
        let ghost files = found@;
        let mut st = Restoring::start(Ghost(files), total_capacity_in_bytes);
        let mut i: usize = 0;
        while i < found.len()
            invariant
                files == found@,
                0 <= i <= files.len(),
                st.inv(files, i as int, total_capacity_in_bytes),
            decreases files.len() - i,
        {
            st.add(Ghost(files), i, &found[i], total_capacity_in_bytes);
            i = i + 1;
        }
        let Restoring {
            index,
            keys,
            malformed,
            unsupported,
            corrupt,
            invalid,
            duplicate,
            used,
            over,
        } = st;
        let ghost keys = keys@;
        proof {
            assert(files.take(files.len() as int) =~= files);
        }
        if malformed {
            return Err(LogError::MalformedSegmentName);
        }
        if unsupported {
            return Err(LogError::UnsupportedVersion);
        }
        if corrupt {
            return Err(LogError::CorruptHeader);
        }
        if invalid {
            return Err(LogError::InvalidCapacity);
        }
        if duplicate {
            return Err(LogError::DuplicateSegment);
        }
        if over {
            return Err(LogError::CapacityExceeded);
        }
        let log = Log {
            data_dir: data_dir.to_owned(),
            capacity_in_bytes: total_capacity_in_bytes,
            segment_capacity_in_bytes,
            available_space_in_bytes: total_capacity_in_bytes - used,
            segments_by_name: index,
            order: Ghost(keys),
        };
        proof {
            let m = log.segments();
            let n = files.len() as int;
            lemma_file_errors(files[0]);
            assert(file_outcome(files[0]) is Ok) by {
                if file_outcome(files[0]) is Err {
                    let e = file_outcome(files[0])->Err_0;
                    assert(fails_with(files, n, e));
                }
            }
            assert(names_key(files, n, 0, file_outcome(files[0])->Ok_0.id.spec_key()));
            assert(keys.contains(file_outcome(files[0])->Ok_0.id.spec_key()));
            assert(keys.len() > 0);
            lemma_greatest_exists(keys);
            let j = choose|j: int| greatest_at(keys, j);
            assert(is_greatest_in(m.dom(), keys[j])) by {
                assert(keys.contains(keys[j]));
                assert forall|k2: SegmentKey| m.dom().contains(k2) implies !key_lt(keys[j], k2) by {
                    assert(keys.contains(k2));
                    let x = choose|x: int| 0 <= x < keys.len() && keys[x] == k2;
                    assert(!key_lt(keys[j], keys[x]));
                }
            }
            let rm = restored_map(files);
            assert forall|k: SegmentKey| #[trigger] m.contains_key(k) <==> rm.contains_key(k) by {
                assert(m.contains_key(k) <==> keys.contains(k));
            }
            assert forall|k: SegmentKey| #[trigger] m.contains_key(k) implies m[k] == rm[k] by {
                assert(keys.contains(k));
                let x = choose|x: int| names_key(files, n, x, k);
                assert(m[k] == sealed(file_outcome(files[x])->Ok_0));
            }
            assert(m =~= rm);
        }
        Ok(log)
    }
}

impl Log {
    /// The directory the log's segment files live in.
    pub fn data_dir(&self) -> (r: String)
        ensures
            r@ == self.dir(),
    {
        self.data_dir.clone()
    }

    /// The total budget across all segments.
    pub fn capacity_in_bytes(&self) -> (r: u64)
        ensures
            r == self.total(),
    {
        self.capacity_in_bytes
    }

    /// The capacity of every new segment.
    pub fn segment_capacity_in_bytes(&self) -> (r: u64)
        ensures
            r == self.segment_capacity(),
    {
        self.segment_capacity_in_bytes
    }

    /// The part of the budget not yet given to a segment.
    pub fn available_space_in_bytes(&self) -> (r: u64)
        ensures
            r == self.available(),
    {
        self.available_space_in_bytes
    }

    /// The active segment: the one with the greatest identifier.
    pub fn active_segment(&self) -> (r: LogSegment)
        requires
            self.wf(),
        ensures
            r@ == self.active(),
            r@.id.spec_key() == self.active_key(),
            r@.wf(),
    {
        proof {
            lemma_active(self);
        }
        let last = index_last(&self.segments_by_name);
        proof {
            if last is Some {
                lemma_greatest_unique(self.segments().dom(), last->Some_0.0, self.active_key());
            }
        }
        let (_, segment) = last.unwrap();
        segment
    }

    /// Whether a write of `write_size` bytes does not fit in the active
    /// segment. Writes larger than a whole segment's payload are the
    /// caller's to avoid: they are never split across segments.
    pub fn should_rollover(&self, write_size: u64) -> (r: bool)
        requires
            self.wf(),
        ensures
            r == self.needs_rollover(write_size),
    {
        let active = self.active_segment();
        active.remaining_bytes() < write_size
    }

    /// Adds a fresh, full-size segment after the active one, which becomes
    /// the new active segment, and takes its capacity from the available
    /// space. Fails, changing nothing, when the budget has no room for a
    /// full-size segment. The caller flushes the old active segment's file
    /// first, and creates, pre-allocates and writes the header of the new
    /// one.
    pub fn rollover(&mut self) -> (r: Result<(), LogError>)
        requires
            old(self).wf(),
        ensures
            final(self).wf(),
            match old(self).rollover_error() {
                Some(e) => r == Err::<(), LogError>(e) && *final(self) == *old(self),
                None => r == Ok::<(), LogError>(()) && old(self).rolled_over_to(&*final(self)),
            },
    {
        if self.available_space_in_bytes < self.segment_capacity_in_bytes {
            return Err(LogError::OutOfCapacity);
        }
        let active = self.active_segment();
        let id = active.id();
        if id.pos == u64::MAX {
            return Err(LogError::OutOfCapacity);
        }
        let next = next_segment_id_pos(&id);
        let segment = match LogSegment::new(next, self.segment_capacity_in_bytes) {
            Ok(s) => s,
            Err(e) => {
                return Err(e);
            },
        };
        let ghost before = *self;
        let ghost old_map = self.segments();
        let ghost old_keys = self.keys();
        let key = next.key();
        proof {
            lemma_active(self);
            assert(!old_map.contains_key(key)) by {
                if old_map.contains_key(key) {
                    assert(!key_lt(self.active_key(), key));
                }
            }
            assert(!old_keys.contains(key));
        }
        index_insert(&mut self.segments_by_name, key, segment);
        self.available_space_in_bytes = self.available_space_in_bytes - self.segment_capacity_in_bytes;
        self.order = Ghost(self.order@.push(key));
        proof {
            let m = self.segments();
            let keys = self.keys();
            lemma_sum_frame(old_keys, old_map, m);
            assert(keys.drop_last() =~= old_keys);
            assert forall|k: SegmentKey| #[trigger] m.contains_key(k) <==> keys.contains(k) by {
                if old_keys.contains(k) {
                    let j = choose|j: int| 0 <= j < old_keys.len() && old_keys[j] == k;
                    assert(keys[j] == k);
                }
                if keys.contains(k) && k != key {
                    let j = choose|j: int| 0 <= j < keys.len() && keys[j] == k;
                    assert(old_keys[j] == k);
                }
                assert(keys[keys.len() - 1] == key);
            }
            assert(keys.no_duplicates()) by {
                assert forall|a: int, b: int|
                    0 <= a < keys.len() && 0 <= b < keys.len() && a != b implies keys[a]
                    != keys[b] by {
                    if a < old_keys.len() && b == old_keys.len() {
                        assert(old_keys.contains(old_keys[a]));
                    } else if b < old_keys.len() && a == old_keys.len() {
                        assert(old_keys.contains(old_keys[b]));
                    }
                }
            }
            assert(is_greatest_in(m.dom(), key)) by {
                assert forall|k2: SegmentKey| m.dom().contains(k2) implies !key_lt(key, k2) by {
                    if k2 != key {
                        assert(old_map.contains_key(k2));
                        assert(!key_lt(before.active_key(), k2));
                    }
                }
            }
            lemma_greatest_unique(m.dom(), key, self.active_key());
        }
        Ok(())
    }

    /// Decides where a write of `write_size` bytes goes: to the active
    /// segment when it fits there, else to a new segment after a rollover,
    /// whose failure is returned. The caller writes the bytes at the target
    /// and then reports how many went out with `record_write`.
    pub fn write(&mut self, write_size: u64) -> (r: Result<WriteTarget, LogError>)
        requires
            old(self).wf(),
        ensures
            final(self).wf(),
            final(self).active_key() == old(self).active_key() || key_lt(
                old(self).active_key(),
                final(self).active_key(),
            ),
            !old(self).needs_rollover(write_size) ==> *final(self) == *old(self) && r == Ok::<
                WriteTarget,
                LogError,
            >(target_of(old(self).active(), write_size)),
            old(self).needs_rollover(write_size) ==> match old(self).rollover_error() {
                Some(e) => r == Err::<WriteTarget, LogError>(e) && *final(self) == *old(self),
                None => old(self).rolled_over_to(&*final(self)) && r == Ok::<WriteTarget, LogError>(
                    target_of(final(self).active(), write_size),
                ),
            },
    {
        if self.should_rollover(write_size) {
            match self.rollover() {
                Ok(()) => {},
                Err(e) => {
                    return Err(e);
                },
            }
        }
        let active = self.active_segment();
        Ok(
            WriteTarget {
                id: active.id(),
                offset: active.end_offset(),
                len: active.room_for(write_size),
            },
        )
    }

    /// Records that `written` bytes went to the active segment's file at its
    /// cursor; the cursor never moves past the segment's capacity. Returns
    /// how far it moved.
    pub fn record_write(&mut self, written: u64) -> (r: u64)
        requires
            old(self).wf(),
        ensures
            final(self).wf(),
            r == old(self).active().room_for(written),
            final(self).segments() == old(self).segments().insert(
                old(self).active_key(),
                old(self).active().advanced(written),
            ),
            final(self).keys() == old(self).keys(),
            final(self).available() == old(self).available(),
            old(self).same_settings(&*final(self)),
            final(self).active_key() == old(self).active_key(),
    {
        let ghost before = *self;
        let mut active = self.active_segment();
        let n = active.write(written);
        let key = active.id().key();
        index_insert(&mut self.segments_by_name, key, active);
        proof {
            lemma_active(&before);
            let m = self.segments();
            lemma_sum_frame(self.keys(), before.segments(), m);
            assert(m.dom() =~= before.segments().dom());
        }
        n
    }
}

/// The capacities of a well-formed log's segments and its available space
/// always add up to its total budget; every operation keeps the log well
/// formed, so this holds after any sequence of writes and rollovers.
pub proof fn lemma_capacity_accounting(log: &Log)
    requires
        log.wf(),
    ensures
        sum_capacities(log.keys(), log.segments()) + log.available() == log.total(),
        log.keys().no_duplicates(),
        forall|k: SegmentKey| #[trigger] log.segments().contains_key(k) <==> log.keys().contains(k),
{
}

proof fn lemma_greatest_unique(s: Set<SegmentKey>, a: SegmentKey, b: SegmentKey)
    requires
        is_greatest_in(s, a),
        is_greatest_in(s, b),
    ensures
        a == b,
{
}

proof fn lemma_active(log: &Log)
    requires
        log.wf(),
    ensures
        is_greatest_in(log.segments().dom(), log.active_key()),
        log.segments().contains_key(log.active_key()),
        log.active().wf(),
        log.active().id.spec_key() == log.active_key(),
        log.segments() != no_segments(),
{
    assert(log.keys().contains(log.keys()[0]));
    assert(log.segments().contains_key(log.keys()[0]));
    assert(!no_segments().contains_key(log.keys()[0]));
}

/// The state of a bootstrap part way through the files found: which kinds
/// of failure were met, the segments restored so far, and the capacity they
/// take.
struct Restoring {
    index: SegmentIndex,
    keys: Ghost<Seq<SegmentKey>>,
    malformed: bool,
    unsupported: bool,
    corrupt: bool,
    invalid: bool,
    duplicate: bool,
    used: u64,
    over: bool,
}

impl Restoring {
    /// The state reflects the first `n` files.
    spec fn inv(&self, files: Seq<SegmentFile>, n: int, total: u64) -> bool {
        &&& self.tracks(files, n)
        &&& self.over <==> files_capacity(files.take(n)) > total
        &&& !self.over ==> self.used == files_capacity(files.take(n))
    }

    /// The failures and segments reflect the first `n` files.
    spec fn tracks(&self, files: Seq<SegmentFile>, n: int) -> bool {
        let m = segment_map(self.index);
        let keys = self.keys@;
        &&& 0 <= n <= files.len()
        &&& self.malformed == fails_with(files, n, LogError::MalformedSegmentName)
        &&& self.unsupported == fails_with(files, n, LogError::UnsupportedVersion)
        &&& self.corrupt == fails_with(files, n, LogError::CorruptHeader)
        &&& self.invalid == fails_with(files, n, LogError::InvalidCapacity)
        &&& self.duplicate == has_duplicate(files, n)
        &&& keys.no_duplicates()
        &&& forall|k: SegmentKey| #[trigger] m.contains_key(k) <==> keys.contains(k)
        &&& forall|k: SegmentKey| #[trigger]
            keys.contains(k) <==> exists|j: int| names_key(files, n, j, k)
        &&& forall|k: SegmentKey| #[trigger]
            m.contains_key(k) ==> m[k].wf() && m[k].id.spec_key() == k
        &&& !self.duplicate ==> forall|j: int, k: SegmentKey| #[trigger]
            names_key(files, n, j, k) ==> m[k] == sealed(file_outcome(files[j])->Ok_0)
        &&& !self.duplicate ==> sum_capacities(keys, m) == files_capacity(files.take(n))
    }

    fn start(Ghost(files): Ghost<Seq<SegmentFile>>, total: u64) -> (r: Restoring)
        ensures
            r.inv(files, 0, total),
    {
        let r = Restoring {
            index: index_new(),
            keys: Ghost(Seq::empty()),
            malformed: false,
            unsupported: false,
            corrupt: false,
            invalid: false,
            duplicate: false,
            used: 0,
            over: false,
        };
        proof {
            assert(files.take(0) =~= Seq::<SegmentFile>::empty());
            assert(!no_segments().contains_key((0u64, 0u64)));
        }
        r
    }

    /// Takes in file `i`.
    fn add(&mut self, Ghost(files): Ghost<Seq<SegmentFile>>, i: usize, file: &SegmentFile, total: u64)
        requires
            old(self).inv(files, i as int, total),
            i < files.len(),
            files[i as int] == *file,
        ensures
            final(self).inv(files, i + 1, total),
    {
        let outcome = restore_file(file);
        proof {
            let prefix = files.take(i + 1);
            assert(prefix.drop_last() =~= files.take(i as int));
            assert(prefix.last() == files[i as int]);
            assert(files_capacity(prefix) == files_capacity(files.take(i as int))
                + file_capacity(files[i as int]));
            lemma_file_errors(files[i as int]);
        }
        match outcome {
            Err(e) => self.add_failed(Ghost(files), i, e),
            Ok(segment) => {
                let capacity = segment.capacity_in_bytes();
                if index_contains(&self.index, segment.id().key()) {
                    self.add_duplicate(Ghost(files), i, segment);
                } else {
                    self.add_new(Ghost(files), i, segment);
                }
                if !self.over {
                    if capacity > total - self.used {
                        self.over = true;
                    } else {
                        self.used = self.used + capacity;
                    }
                }
            },
        }
    }

    #[verifier::rlimit(100)]
    fn add_failed(&mut self, Ghost(files): Ghost<Seq<SegmentFile>>, i: usize, e: LogError)
        requires
            old(self).tracks(files, i as int),
            i < files.len(),
            file_outcome(files[i as int]) == Err::<SegmentModel, LogError>(e),
        ensures
            final(self).tracks(files, i + 1),
            final(self).used == old(self).used,
            final(self).over == old(self).over,
    {
        match e {
            LogError::MalformedSegmentName => {
                self.malformed = true;
            },
            LogError::UnsupportedVersion => {
                self.unsupported = true;
            },
            LogError::CorruptHeader => {
                self.corrupt = true;
            },
            _ => {
                self.invalid = true;
            },
        }
        let ghost ni: int = i + 1;
        proof {
            let prefix = files.take(i + 1);
            assert(prefix.drop_last() =~= files.take(i as int));
            assert(prefix.last() == files[i as int]);
            assert(file_capacity(files[i as int]) == 0);
            assert(files_capacity(prefix) == files_capacity(files.take(i as int)));
            lemma_file_errors(files[i as int]);
            lemma_fails_step(files, i as int, LogError::MalformedSegmentName);
            lemma_fails_step(files, i as int, LogError::UnsupportedVersion);
            lemma_fails_step(files, i as int, LogError::CorruptHeader);
            lemma_fails_step(files, i as int, LogError::InvalidCapacity);
            lemma_dup_step(files, i as int);
            assert forall|k: SegmentKey| #[trigger] self.keys@.contains(k) <==> exists|j: int|
                names_key(files, ni, j, k) by {
                if exists|j: int| names_key(files, ni, j, k) {
                    let j = choose|j: int| names_key(files, ni, j, k);
                    assert(names_key(files, i as int, j, k));
                }
                if exists|j: int| names_key(files, i as int, j, k) {
                    let j = choose|j: int| names_key(files, i as int, j, k);
                    assert(names_key(files, ni, j, k));
                }
            }
            assert forall|j: int, k: SegmentKey| !self.duplicate && #[trigger]
                names_key(files, ni, j, k) implies segment_map(self.index)[k] == sealed(
                file_outcome(files[j])->Ok_0) by {
                assert(names_key(files, i as int, j, k));
            }
        }
    }

    fn add_duplicate(&mut self, Ghost(files): Ghost<Seq<SegmentFile>>, i: usize, segment: LogSegment)
        requires
            old(self).tracks(files, i as int),
            i < files.len(),
            file_outcome(files[i as int]) is Ok,
            segment@ == file_outcome(files[i as int])->Ok_0,
            segment_map(old(self).index).contains_key(segment@.id.spec_key()),
        ensures
            final(self).tracks(files, i + 1),
            final(self).used == old(self).used,
            final(self).over == old(self).over,
    {
        self.duplicate = true;
        let ghost ni: int = i + 1;
        let ghost key = segment@.id.spec_key();
        proof {
            lemma_fails_step(files, i as int, LogError::MalformedSegmentName);
            lemma_fails_step(files, i as int, LogError::UnsupportedVersion);
            lemma_fails_step(files, i as int, LogError::CorruptHeader);
            lemma_fails_step(files, i as int, LogError::InvalidCapacity);
            lemma_dup_step(files, i as int);
            let keys = self.keys@;
            assert(keys.contains(key));
            let j = choose|j: int| names_key(files, i as int, j, key);
            assert(names_key(files, i as int, j, key));
            assert forall|k: SegmentKey| #[trigger] keys.contains(k) <==> exists|jj: int|
                names_key(files, ni, jj, k) by {
                if exists|jj: int| names_key(files, ni, jj, k) {
                    let jj = choose|jj: int| names_key(files, ni, jj, k);
                    if jj < i {
                        assert(names_key(files, i as int, jj, k));
                    }
                }
                if exists|jj: int| names_key(files, i as int, jj, k) {
                    let jj = choose|jj: int| names_key(files, i as int, jj, k);
                    assert(names_key(files, ni, jj, k));
                }
            }
        }
    }

    #[verifier::rlimit(100)]
    fn add_new(&mut self, Ghost(files): Ghost<Seq<SegmentFile>>, i: usize, segment: LogSegment)
        requires
            old(self).tracks(files, i as int),
            i < files.len(),
            file_outcome(files[i as int]) is Ok,
            segment@ == file_outcome(files[i as int])->Ok_0,
            segment@.wf(),
            !segment_map(old(self).index).contains_key(segment@.id.spec_key()),
        ensures
            final(self).tracks(files, i + 1),
            final(self).used == old(self).used,
            final(self).over == old(self).over,
    {
        let mut segment = segment;
        let key = segment.id().key();
        let ghost ni: int = i + 1;
        let ghost old_map = segment_map(self.index);
        let ghost old_keys = self.keys@;
        let ghost restored = segment@;
        segment.seal();
        index_insert(&mut self.index, key, segment);
        self.keys = Ghost(self.keys@.push(key));
        proof {
            lemma_fails_step(files, i as int, LogError::MalformedSegmentName);
            lemma_fails_step(files, i as int, LogError::UnsupportedVersion);
            lemma_fails_step(files, i as int, LogError::CorruptHeader);
            lemma_fails_step(files, i as int, LogError::InvalidCapacity);
            lemma_dup_step(files, i as int);
            let keys = self.keys@;
            let new_map = segment_map(self.index);
            assert(!old_keys.contains(key));
            assert(!exists|j: int| names_key(files, i as int, j, key));
            assert(names_key(files, ni, i as int, key));
            lemma_sum_frame(old_keys, old_map, new_map);
            assert(keys.drop_last() =~= old_keys);
            let prefix = files.take(i + 1);
            assert(prefix.drop_last() =~= files.take(i as int));
            assert(prefix.last() == files[i as int]);
            lemma_file_errors(files[i as int]);
            assert(files_capacity(prefix) == files_capacity(files.take(i as int))
                + file_capacity(files[i as int]));
            assert forall|k: SegmentKey| #[trigger] new_map.contains_key(k) <==> keys.contains(k) by {
                if old_keys.contains(k) {
                    let j = choose|j: int| 0 <= j < old_keys.len() && old_keys[j] == k;
                    assert(keys[j] == k);
                }
                if keys.contains(k) && k != key {
                    let j = choose|j: int| 0 <= j < keys.len() && keys[j] == k;
                    assert(old_keys[j] == k);
                }
                assert(keys[keys.len() - 1] == key);
            }
            assert(keys[keys.len() - 1] == key);
            assert(keys.contains(key));
            assert forall|k: SegmentKey| #[trigger] keys.contains(k) <==> exists|jj: int|
                names_key(files, ni, jj, k) by {
                if exists|jj: int| names_key(files, ni, jj, k) {
                    let jj = choose|jj: int| names_key(files, ni, jj, k);
                    if jj < i {
                        assert(names_key(files, i as int, jj, k));
                        assert(old_keys.contains(k));
                        let x = choose|x: int| 0 <= x < old_keys.len() && old_keys[x] == k;
                        assert(keys[x] == k);
                    }
                }
                if k == key {
                    assert(names_key(files, ni, i as int, k));
                }
                if keys.contains(k) && k != key {
                    let x = choose|x: int| 0 <= x < keys.len() && keys[x] == k;
                    assert(old_keys[x] == k);
                    assert(old_keys.contains(k));
                }
                if old_keys.contains(k) {
                    let jj = choose|jj: int| names_key(files, i as int, jj, k);
                    assert(names_key(files, ni, jj, k));
                }
            }
            assert(keys.no_duplicates()) by {
                assert forall|a: int, b: int|
                    0 <= a < keys.len() && 0 <= b < keys.len() && a != b implies keys[a]
                    != keys[b] by {
                    if a < old_keys.len() && b == old_keys.len() {
                        assert(old_keys.contains(old_keys[a]));
                    } else if b < old_keys.len() && a == old_keys.len() {
                        assert(old_keys.contains(old_keys[b]));
                    }
                }
            }
            assert forall|j: int, k: SegmentKey| !self.duplicate && #[trigger]
                names_key(files, ni, j, k) implies new_map[k] == sealed(
                file_outcome(files[j])->Ok_0) by {
                if j < i {
                    assert(names_key(files, i as int, j, k));
                    assert(k != key);
                }
            }
        }
    }
}

/// The outcome of a bootstrap does not depend on the order in which the
/// files of a directory are listed: any reordering of the same files gives
/// the same error, or the same segments under the same keys and the same
/// space in use.
pub proof fn lemma_bootstrap_order_independent(f1: Seq<SegmentFile>, f2: Seq<SegmentFile>)
    requires
        f1.to_multiset() == f2.to_multiset(),
    ensures
        f1.len() == f2.len(),
        bootstrap_error(f1) == bootstrap_error(f2),
        files_capacity(f1) == files_capacity(f2),
        bootstrap_error(f1) is None ==> restored_map(f1) == restored_map(f2),
{
    broadcast use vstd::seq_lib::group_to_multiset_ensures;

    assert(f1.len() == f1.to_multiset().len());
    assert(f2.len() == f2.to_multiset().len());
    let kinds = seq![
        LogError::MalformedSegmentName,
        LogError::UnsupportedVersion,
        LogError::CorruptHeader,
        LogError::InvalidCapacity,
    ];
    assert forall|e: LogError| #[trigger] fails_with(f1, f1.len() as int, e) == fails_with(
        f2,
        f2.len() as int,
        e,
    ) by {
        if fails_with(f1, f1.len() as int, e) {
            lemma_fails_transfer(f1, f2, e);
        }
        if fails_with(f2, f2.len() as int, e) {
            lemma_fails_transfer(f2, f1, e);
        }
    }
    if has_duplicate(f1, f1.len() as int) {
        lemma_dup_transfer(f1, f2);
    }
    if has_duplicate(f2, f2.len() as int) {
        lemma_dup_transfer(f2, f1);
    }
    assert(vstd::seq_lib::commutative_foldl(capacity_step()));
    vstd::seq_lib::lemma_fold_left_permutation(f1, f2, capacity_step(), 0int);
    if bootstrap_error(f1) is None {
        let m1 = restored_map(f1);
        let m2 = restored_map(f2);
        let n1 = f1.len() as int;
        let n2 = f2.len() as int;
        assert forall|k: SegmentKey| #[trigger] m1.contains_key(k) == m2.contains_key(k) by {
            if m1.contains_key(k) {
                lemma_key_transfer(f1, f2, k);
            }
            if m2.contains_key(k) {
                lemma_key_transfer(f2, f1, k);
            }
        }
        assert forall|k: SegmentKey| #[trigger] m1.contains_key(k) implies m1[k] == m2[k] by {
            let j1 = choose|j: int| names_key(f1, n1, j, k);
            let j2 = choose|j: int| names_key(f2, n2, j, k);
            lemma_member(f1, f2, f1[j1]);
            let j3 = choose|j: int| 0 <= j < f2.len() && f2[j] == f1[j1];
            assert(names_key(f2, n2, j3, k));
            if j3 < j2 {
                assert(file_outcome(f2[j3])->Ok_0.id == file_outcome(f2[j2])->Ok_0.id);
                assert(has_duplicate(f2, n2));
            } else if j2 < j3 {
                assert(file_outcome(f2[j3])->Ok_0.id == file_outcome(f2[j2])->Ok_0.id);
                assert(has_duplicate(f2, n2));
            }
        }
        assert(m1 =~= m2);
    }
}

proof fn lemma_member(f1: Seq<SegmentFile>, f2: Seq<SegmentFile>, x: SegmentFile)
    requires
        f1.to_multiset() == f2.to_multiset(),
        f1.contains(x),
    ensures
        f2.contains(x),
{
    broadcast use vstd::seq_lib::group_to_multiset_ensures;

    assert(f1.to_multiset().count(x) > 0);
    assert(f2.to_multiset().count(x) > 0);
}

proof fn lemma_fails_transfer(f1: Seq<SegmentFile>, f2: Seq<SegmentFile>, e: LogError)
    requires
        f1.to_multiset() == f2.to_multiset(),
        fails_with(f1, f1.len() as int, e),
    ensures
        fails_with(f2, f2.len() as int, e),
{
    broadcast use vstd::seq_lib::group_to_multiset_ensures;

    let j = choose|j: int|
        0 <= j < f1.len() && #[trigger] file_outcome(f1[j]) == Err::<SegmentModel, LogError>(e);
    lemma_member(f1, f2, f1[j]);
    let j2 = choose|j2: int| 0 <= j2 < f2.len() && f2[j2] == f1[j];
    assert(file_outcome(f2[j2]) == Err::<SegmentModel, LogError>(e));
}

proof fn lemma_key_transfer(f1: Seq<SegmentFile>, f2: Seq<SegmentFile>, k: SegmentKey)
    requires
        f1.to_multiset() == f2.to_multiset(),
        exists|j: int| names_key(f1, f1.len() as int, j, k),
    ensures
        exists|j: int| names_key(f2, f2.len() as int, j, k),
{
    broadcast use vstd::seq_lib::group_to_multiset_ensures;

    let j = choose|j: int| names_key(f1, f1.len() as int, j, k);
    lemma_member(f1, f2, f1[j]);
    let j2 = choose|j2: int| 0 <= j2 < f2.len() && f2[j2] == f1[j];
    assert(names_key(f2, f2.len() as int, j2, k));
}

proof fn lemma_two_copies(s: Seq<SegmentFile>, a: int, b: int)
    requires
        0 <= a < s.len(),
        0 <= b < s.len(),
        a != b,
        s[a] == s[b],
    ensures
        s.to_multiset().count(s[a]) >= 2,
{
    broadcast use vstd::seq_lib::group_to_multiset_ensures;
    broadcast use vstd::multiset::group_multiset_axioms;

    let r = s.remove(b);
    let a2 = if a < b {
        a
    } else {
        a - 1
    };
    assert(r[a2] == s[a]);
    assert(r.contains(s[a]));
    assert(r.to_multiset().count(s[a]) > 0);
    assert(r.to_multiset() =~= s.to_multiset().remove(s[b]));
    assert(s.to_multiset().remove(s[b]).count(s[a]) > 0);
    assert(vstd::multiset::Multiset::singleton(s[b]).count(s[a]) == 1);
}

proof fn lemma_two_indices(s: Seq<SegmentFile>, x: SegmentFile)
    requires
        s.to_multiset().count(x) >= 2,
    ensures
        exists|a: int, b: int| 0 <= a < b < s.len() && s[a] == x && s[b] == x,
{
    broadcast use vstd::seq_lib::group_to_multiset_ensures;
    broadcast use vstd::multiset::group_multiset_axioms;

    assert(s.to_multiset().count(x) > 0);
    assert(s.contains(x));
    let i = choose|i: int| 0 <= i < s.len() && s[i] == x;
    assert(vstd::multiset::Multiset::singleton(x).count(x) == 1);
    let r = s.remove(i);
    assert(r.to_multiset() =~= s.to_multiset().remove(s[i]));
    assert(r.to_multiset().count(x) >= 1);
    assert(r.contains(x));
    let j = choose|j: int| 0 <= j < r.len() && r[j] == x;
    if j < i {
        assert(s[j] == x);
    } else {
        assert(s[j + 1] == x);
    }
}

proof fn lemma_dup_transfer(f1: Seq<SegmentFile>, f2: Seq<SegmentFile>)
    requires
        f1.to_multiset() == f2.to_multiset(),
        has_duplicate(f1, f1.len() as int),
    ensures
        has_duplicate(f2, f2.len() as int),
{
    broadcast use vstd::seq_lib::group_to_multiset_ensures;

    let (a, b) = choose|a: int, b: int|
        #![trigger file_outcome(f1[a]), file_outcome(f1[b])]
        0 <= a < b < f1.len() && file_outcome(f1[a]) is Ok && file_outcome(f1[b]) is Ok
            && file_outcome(f1[a])->Ok_0.id == file_outcome(f1[b])->Ok_0.id;
    let (ja, jb) = if f1[a] != f1[b] {
        lemma_member(f1, f2, f1[a]);
        lemma_member(f1, f2, f1[b]);
        let ja = choose|j: int| 0 <= j < f2.len() && f2[j] == f1[a];
        let jb = choose|j: int| 0 <= j < f2.len() && f2[j] == f1[b];
        (ja, jb)
    } else {
        lemma_two_copies(f1, a, b);
        lemma_two_indices(f2, f1[a]);
        let (x, y) = choose|x: int, y: int| 0 <= x < y < f2.len() && f2[x] == f1[a] && f2[y] == f1[a];
        (x, y)
    };
    assert(ja != jb);
    if ja < jb {
        assert(file_outcome(f2[ja]) is Ok && file_outcome(f2[jb]) is Ok);
    } else {
        assert(file_outcome(f2[jb]) is Ok && file_outcome(f2[ja]) is Ok);
    }
}

/// Restores one segment file on its own.
fn restore_file(f: &SegmentFile) -> (r: Result<LogSegment, LogError>)
    ensures
        match file_outcome(*f) {
            Err(e) => r == Err::<LogSegment, LogError>(e),
            Ok(m) => r is Ok && r->Ok_0@ == m,
        },
{
    proof {
        reveal(file_outcome);
    }
    let id = match segment_id_from_filename(f.filename.as_str()) {
        Ok(id) => id,
        Err(e) => {
            return Err(e);
        },
    };
    proof {
        reveal(file_outcome);
    }
    LogSegment::restore_from(id, f.header.as_slice())
}

proof fn lemma_file_errors(f: SegmentFile)
    ensures
        file_outcome(f) is Err ==> {
            ||| file_outcome(f) == Err::<SegmentModel, LogError>(LogError::MalformedSegmentName)
            ||| file_outcome(f) == Err::<SegmentModel, LogError>(LogError::UnsupportedVersion)
            ||| file_outcome(f) == Err::<SegmentModel, LogError>(LogError::CorruptHeader)
            ||| file_outcome(f) == Err::<SegmentModel, LogError>(LogError::InvalidCapacity)
        },
        file_outcome(f) is Ok ==> file_outcome(f)->Ok_0.wf() && file_capacity(f)
            == file_outcome(f)->Ok_0.capacity,
{
    reveal(file_outcome);
}

proof fn lemma_fails_step(files: Seq<SegmentFile>, i: int, e: LogError)
    requires
        0 <= i < files.len(),
    ensures
        fails_with(files, i + 1, e) == (fails_with(files, i, e) || file_outcome(files[i])
            == Err::<SegmentModel, LogError>(e)),
{
    if fails_with(files, i + 1, e) {
        let j = choose|j: int|
            0 <= j < i + 1 && #[trigger] file_outcome(files[j]) == Err::<SegmentModel, LogError>(e);
        if j < i {
            assert(fails_with(files, i, e));
        }
    }
    if fails_with(files, i, e) {
        let j = choose|j: int|
            0 <= j < i && #[trigger] file_outcome(files[j]) == Err::<SegmentModel, LogError>(e);
        assert(fails_with(files, i + 1, e));
    }
    if file_outcome(files[i]) == Err::<SegmentModel, LogError>(e) {
        assert(fails_with(files, i + 1, e));
    }
}

proof fn lemma_dup_step(files: Seq<SegmentFile>, i: int)
    requires
        0 <= i < files.len(),
    ensures
        has_duplicate(files, i + 1) == (has_duplicate(files, i) || (file_outcome(files[i]) is Ok
            && exists|j: int| names_key(files, i, j, file_outcome(files[i])->Ok_0.id.spec_key()))),
{
    if has_duplicate(files, i + 1) {
        let (a, b) = choose|a: int, b: int|
            #![trigger file_outcome(files[a]), file_outcome(files[b])]
            0 <= a < b < i + 1 && file_outcome(files[a]) is Ok && file_outcome(files[b]) is Ok
                && file_outcome(files[a])->Ok_0.id == file_outcome(files[b])->Ok_0.id;
        if b < i {
            assert(has_duplicate(files, i));
        } else {
            assert(names_key(files, i, a, file_outcome(files[i])->Ok_0.id.spec_key()));
        }
    }
    if has_duplicate(files, i) {
        let (a, b) = choose|a: int, b: int|
            #![trigger file_outcome(files[a]), file_outcome(files[b])]
            0 <= a < b < i && file_outcome(files[a]) is Ok && file_outcome(files[b]) is Ok
                && file_outcome(files[a])->Ok_0.id == file_outcome(files[b])->Ok_0.id;
        assert(has_duplicate(files, i + 1));
    }
    if file_outcome(files[i]) is Ok && exists|j: int|
        names_key(files, i, j, file_outcome(files[i])->Ok_0.id.spec_key()) {
        let j = choose|j: int| names_key(files, i, j, file_outcome(files[i])->Ok_0.id.spec_key());
        assert(file_outcome(files[j])->Ok_0.id == file_outcome(files[i])->Ok_0.id);
        assert(has_duplicate(files, i + 1));
    }
}

proof fn lemma_sum_frame(
    keys: Seq<SegmentKey>,
    m1: Map<SegmentKey, SegmentModel>,
    m2: Map<SegmentKey, SegmentModel>,
)
    requires
        forall|j: int| 0 <= j < keys.len() ==> m1[#[trigger] keys[j]].capacity == m2[keys[j]].capacity,
    ensures
        sum_capacities(keys, m1) == sum_capacities(keys, m2),
    decreases keys.len(),
{
    if keys.len() > 0 {
        let d = keys.drop_last();
        assert forall|j: int| 0 <= j < d.len() implies m1[#[trigger] d[j]].capacity
            == m2[d[j]].capacity by {
            assert(d[j] == keys[j]);
        }
        lemma_sum_frame(d, m1, m2);
    }
}

spec fn greatest_at(keys: Seq<SegmentKey>, j: int) -> bool {
    0 <= j < keys.len() && forall|x: int| 0 <= x < keys.len() ==> !key_lt(keys[j], #[trigger] keys[x])
}

proof fn lemma_greatest_exists(keys: Seq<SegmentKey>)
    requires
        keys.len() > 0,
    ensures
        exists|j: int| greatest_at(keys, j),
    decreases keys.len(),
{
    if keys.len() == 1 {
        assert(greatest_at(keys, 0));
    } else {
        let d = keys.drop_last();
        lemma_greatest_exists(d);
        let j = choose|j: int| greatest_at(d, j);
        let last = keys.len() - 1;
        if key_lt(keys[j], keys[last]) {
            assert forall|x: int| 0 <= x < keys.len() implies !key_lt(keys[last], keys[x]) by {
                if x < last {
                    assert(!key_lt(d[j], d[x]));
                }
            }
            assert(greatest_at(keys, last));
        } else {
            assert forall|x: int| 0 <= x < keys.len() implies !key_lt(keys[j], keys[x]) by {
                if x < last {
                    assert(!key_lt(d[j], d[x]));
                }
            }
            assert(greatest_at(keys, j));
        }
    }
}

} // verus!
