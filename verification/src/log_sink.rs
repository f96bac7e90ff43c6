//! Indexing of durable appends: validation, checkpoints and recovery.
use vstd::prelude::*;

use crate::active_block::StripeConfig;
use crate::codec::{decimal_string, decimal_text};
use crate::durable_store::SinkCheckpoint;
use crate::error::{ConfigFault, LogDbError, LogDbFault, NativeProtocolError};
use crate::ingest_pack::{is_ingest_pack, pack_magic, parse_pack, validate_ingest_pack};
use crate::log_query::search_forms;
use crate::log_stripe::{batch_published, batch_terms, LogStripe};
use crate::native_batch::{
    batch_header_error, batch_magic, batch_record_count, inspect_native_log_batch,
    is_native_log_batch, parse_batch, BatchReader,
};
use crate::native_decode::{decode_native_log_events, events_of, validate_native_log_batch};
use crate::order::{arranged, is_order, lemma_order_exists, order_of, stable_order};
use crate::otlp::{export_events, OtlpLogDecoder};
use crate::record::{
    events_view, EventModel, LogicalOffset, OtlpLogEvent, ShardId, TopicPartition,
};

verus! {

broadcast use vstd::seq_lib::group_seq_properties;

/// Configuration of the sinks that index each shard.
#[derive(Debug, PartialEq, Eq)]
pub struct OtlpSinkConfig {
    /// Limits of each stripe.
    pub stripe: StripeConfig,
    /// Durable append batches that may wait for each shard.
    pub queue_slots: usize,
    /// Directory of the journals; none keeps nothing.
    pub state_directory: Option<String>,
    /// Most bytes of each journal.
    pub max_journal_bytes: u64,
}

impl Default for OtlpSinkConfig {
    fn default() -> (config: Self)
        ensures
            config.queue_slots == 256,
            config.state_directory is None,
            config.max_journal_bytes == 64 * 1024 * 1024 * 1024,
            config.stripe.target_block_bytes == 8 * 1024 * 1024,
            config.stripe.dictionary_cache_bytes == 16 * 1024 * 1024,
            config.stripe.compression_level == 1,
    {
        OtlpSinkConfig {
            stripe: StripeConfig::default(),
            queue_slots: 256,
            state_directory: None,
            max_journal_bytes: 64 * 1024 * 1024 * 1024,
        }
    }
}

impl OtlpSinkConfig {
    /// What is wrong with the configuration, if anything.
    pub open spec fn fault(self) -> Option<ConfigFault> {
        if self.queue_slots == 0 {
            Some(ConfigFault::QueueSlots)
        } else if self.max_journal_bytes < 8 {
            Some(ConfigFault::JournalBytes)
        } else {
            None
        }
    }

    /// Tests the configuration.
    pub fn validate(&self) -> (result: Result<(), LogDbError>)
        ensures
            match (result, self.fault()) {
                (Ok(_), None) => true,
                (Err(error), Some(fault)) => error == LogDbError::InvalidConfig(fault),
                _ => false,
            },
    {
        if self.queue_slots == 0 {
            return Err(LogDbError::InvalidConfig(ConfigFault::QueueSlots));
        }
        if self.max_journal_bytes < 8 {
            return Err(LogDbError::InvalidConfig(ConfigFault::JournalBytes));
        }
        Ok(())
    }
}

/// Whether a payload is a compressed pack.
pub open spec fn is_pack(payload: Seq<u8>) -> bool {
    payload.len() >= 4 && payload.subrange(0, 4) == pack_magic()
}

/// Whether a payload is a native batch.
pub open spec fn is_native(payload: Seq<u8>) -> bool {
    payload.len() >= 4 && payload.subrange(0, 4) == batch_magic()
}

/// Events of a payload that is no compressed pack: a native batch or an OTLP export.
pub open spec fn payload_events(payload: Seq<u8>) -> Result<Seq<EventModel>, LogDbFault> {
    if is_native(payload) {
        match parse_batch(payload, BatchReader::Events) {
            Ok(batch) => Ok(events_of(batch.tenant, batch.streams)),
            Err(error) => Err(LogDbError::InvalidNativePayload(error)@),
        }
    } else {
        export_events(payload)
    }
}

/// Decodes a payload that is no compressed pack.
pub fn decode_log_events(payload: &[u8]) -> (result: Result<Vec<OtlpLogEvent>, LogDbError>)
    requires
        !is_pack(payload@),
    ensures
        match (payload_events(payload@), result) {
            (Ok(models), Ok(events)) => events_view(events@) == models,
            (Err(fault), Err(error)) => error@ == fault,
            _ => false,
        },
{
    if is_native_log_batch(payload) {
        match decode_native_log_events(payload) {
            Ok((_, events)) => Ok(events),
            Err(error) => Err(LogDbError::InvalidNativePayload(error)),
        }
    } else {
        OtlpLogDecoder.decode(payload)
    }
}

/// Why an append is refused before it is durable.
#[derive(Debug, Clone, PartialEq, Eq)]
pub enum AppendFault {
    /// The payload was refused.
    Payload(LogDbError),
    /// The native batch was refused.
    Native(NativeProtocolError),
    /// There are more records than a count can state.
    TooManyRecords,
    /// The payload has another number of records than the request reserves.
    RecordCount {
        /// Records of the payload.
        decoded: u32,
        /// Records of the request.
        reserved: u32,
    },
}

/// Value of a refusal.
#[verifier::ext_equal]
pub enum AppendFaultModel {
    /// The payload was refused.
    Payload(LogDbFault),
    /// The native batch was refused.
    Native(NativeProtocolError),
    /// There are more records than a count can state.
    TooManyRecords,
    /// The payload has another number of records than the request reserves.
    RecordCount {
        /// Records of the payload.
        decoded: u32,
        /// Records of the request.
        reserved: u32,
    },
}

impl View for AppendFault {
    type V = AppendFaultModel;

    open spec fn view(&self) -> AppendFaultModel {
        match self {
            AppendFault::Payload(error) => AppendFaultModel::Payload(error@),
            AppendFault::Native(error) => AppendFaultModel::Native(*error),
            AppendFault::TooManyRecords => AppendFaultModel::TooManyRecords,
            AppendFault::RecordCount { decoded, reserved } => AppendFaultModel::RecordCount {
                decoded: *decoded,
                reserved: *reserved,
            },
        }
    }
}

/// Why an append is refused, if it is.
pub open spec fn append_fault(payload: Seq<u8>, record_count: u32) -> Option<AppendFaultModel> {
    if is_pack(payload) {
        match parse_pack(payload, record_count) {
            Ok(_) => None,
            Err(error) => Some(AppendFaultModel::Payload(error@)),
        }
    } else if is_native(payload) {
        match parse_batch(payload, BatchReader::Events) {
            Err(error) => Some(AppendFaultModel::Native(error)),
            Ok(_) => match batch_header_error(payload) {
                Some(error) => Some(AppendFaultModel::Native(error)),
                None => if batch_record_count(payload) != record_count {
                    Some(
                        AppendFaultModel::RecordCount {
                            decoded: batch_record_count(payload) as u32,
                            reserved: record_count,
                        },
                    )
                } else {
                    None
                },
            },
        }
    } else {
        match export_events(payload) {
            Err(error) => Some(AppendFaultModel::Payload(error)),
            Ok(events) => if events.len() > u32::MAX {
                Some(AppendFaultModel::TooManyRecords)
            } else if events.len() != record_count {
                Some(
                    AppendFaultModel::RecordCount {
                        decoded: events.len() as u32,
                        reserved: record_count,
                    },
                )
            } else {
                None
            },
        }
    }
}

/// Tests an append before offsets are reserved for it.
pub fn validate_append(payload: &[u8], record_count: u32) -> (result: Result<(), AppendFault>)
    ensures
        match (result, append_fault(payload@, record_count)) {
            (Ok(_), None) => true,
            (Err(fault), Some(wanted)) => fault@ == wanted,
            _ => false,
        },
{
    if is_ingest_pack(payload) {
        return match validate_ingest_pack(payload, record_count) {
            Ok(_) => Ok(()),
            Err(error) => Err(AppendFault::Payload(error)),
        };
    }
    if is_native_log_batch(payload) {
        match validate_native_log_batch(payload) {
            Ok(_) => {},
            Err(error) => return Err(AppendFault::Native(error)),
        }
        let decoded: u32 = match inspect_native_log_batch(payload) {
            Ok(info) => info.record_count,
            Err(error) => return Err(AppendFault::Native(error)),
        };
        if decoded != record_count {
            return Err(AppendFault::RecordCount { decoded, reserved: record_count });
        }
        return Ok(());
    }
    match OtlpLogDecoder.decode(payload) {
        Ok(events) => {
            proof {
                assert(events_view(events@).len() == events@.len());
            }
            if events.len() as u64 > u32::MAX as u64 {
                return Err(AppendFault::TooManyRecords);
            }
            let decoded: u32 = events.len() as u32;
            if decoded != record_count {
                return Err(AppendFault::RecordCount { decoded, reserved: record_count });
            }
            Ok(())
        },
        Err(error) => Err(AppendFault::Payload(error)),
    }
}

/// The message of a wrong record count.
pub open spec fn record_count_text(decoded: u32, reserved: u32) -> Seq<char> {
    "log batch contains "@ + decimal_text(decoded as nat) + " records, request reserved "@
        + decimal_text(reserved as nat)
}

/// The message of a wrong record count.
pub fn record_count_message(decoded: u32, reserved: u32) -> (message: String)
    ensures
        message@ == record_count_text(decoded, reserved),
{
    "log batch contains ".to_owned().concat(&decimal_string(decoded as u128)).concat(
        " records, request reserved ",
    ).concat(&decimal_string(reserved as u128))
}

/// Place of a partition's checkpoint from `from` on.
pub open spec fn checkpoint_place(
    checkpoints: Seq<SinkCheckpoint>,
    partition: TopicPartition,
    from: int,
) -> int
    decreases checkpoints.len() - from,
{
    if from >= checkpoints.len() {
        checkpoints.len() as int
    } else if checkpoints[from].topic_partition == partition {
        from
    } else {
        checkpoint_place(checkpoints, partition, from + 1)
    }
}

/// The checkpoint of a partition, if there is one.
pub open spec fn checkpoint_in(
    checkpoints: Seq<SinkCheckpoint>,
    partition: TopicPartition,
) -> Option<SinkCheckpoint> {
    let at = checkpoint_place(checkpoints, partition, 0);
    if at < checkpoints.len() {
        Some(checkpoints[at])
    } else {
        None
    }
}

proof fn lemma_checkpoint_place(
    checkpoints: Seq<SinkCheckpoint>,
    partition: TopicPartition,
    from: int,
)
    requires
        0 <= from <= checkpoints.len(),
    ensures
        from <= checkpoint_place(checkpoints, partition, from) <= checkpoints.len(),
        checkpoint_place(checkpoints, partition, from) < checkpoints.len()
            ==> checkpoints[checkpoint_place(checkpoints, partition, from)].topic_partition
            == partition,
        forall|i: int|
            from <= i < checkpoint_place(checkpoints, partition, from) ==> (
            #[trigger] checkpoints[i]).topic_partition != partition,
    decreases checkpoints.len() - from,
{
    if from < checkpoints.len() && checkpoints[from].topic_partition != partition {
        lemma_checkpoint_place(checkpoints, partition, from + 1);
    }
}

proof fn lemma_place_found(
    checkpoints: Seq<SinkCheckpoint>,
    partition: TopicPartition,
    from: int,
    at: int,
)
    requires
        0 <= from <= at <= checkpoints.len(),
        at < checkpoints.len() ==> checkpoints[at].topic_partition == partition,
        forall|i: int|
            from <= i < at ==> (#[trigger] checkpoints[i]).topic_partition != partition,
    ensures
        checkpoint_place(checkpoints, partition, from) == at,
    decreases at - from,
{
    if from < at {
        lemma_place_found(checkpoints, partition, from + 1, at);
    }
}

/// Checkpoints of all partitions.
#[derive(Debug)]
pub struct SinkCheckpoints {
    /// One checkpoint for each partition that has one.
    pub list: Vec<SinkCheckpoint>,
}

impl SinkCheckpoints {
    /// No checkpoints.
    pub fn new() -> (checkpoints: Self)
        ensures
            forall|partition: TopicPartition|
                #[trigger] checkpoint_in(checkpoints.list@, partition) is None,
    {
        SinkCheckpoints { list: Vec::new() }
    }

    fn place(&self, partition: TopicPartition) -> (at: usize)
        ensures
            at == checkpoint_place(self.list@, partition, 0),
            at <= self.list@.len(),
    {
        let mut at: usize = 0;
        while at < self.list.len() && self.list[at].topic_partition != partition
            invariant
                at <= self.list@.len(),
                checkpoint_place(self.list@, partition, 0) == checkpoint_place(
                    self.list@,
                    partition,
                    at as int,
                ),
            decreases self.list@.len() - at,
        {
            at = at + 1;
        }
        at
    }

    /// The checkpoint of a partition.
    pub fn load(&self, partition: TopicPartition) -> (checkpoint: Option<SinkCheckpoint>)
        ensures
            checkpoint == checkpoint_in(self.list@, partition),
    {
        let at: usize = self.place(partition);
        if at < self.list.len() {
            Some(self.list[at])
        } else {
            None
        }
    }

    /// Sets the checkpoint of its partition.
    pub fn store(&mut self, checkpoint: SinkCheckpoint)
        ensures
            checkpoint_in(final(self).list@, checkpoint.topic_partition) == Some(checkpoint),
            forall|partition: TopicPartition|
                partition != checkpoint.topic_partition ==> #[trigger] checkpoint_in(
                    final(self).list@,
                    partition,
                ) == checkpoint_in(old(self).list@, partition),
    {
        let ghost before = self.list@;
        let wanted = checkpoint.topic_partition;
        let at: usize = self.place(wanted);
        proof {
            lemma_checkpoint_place(before, wanted, 0);
        }
        if at < self.list.len() {
            self.list.set(at, checkpoint);
        } else {
            self.list.push(checkpoint);
        }
        proof {
            let after = self.list@;
            assert(after[at as int] == checkpoint);
            assert forall|i: int| 0 <= i < at implies (#[trigger] after[i]).topic_partition
                != wanted by {
                assert(after[i] == before[i]);
            }
            lemma_place_found(after, wanted, 0, at as int);
            assert forall|partition: TopicPartition| partition != wanted implies
                #[trigger] checkpoint_in(after, partition) == checkpoint_in(before, partition) by {
                lemma_checkpoint_place(before, partition, 0);
                let place = checkpoint_place(before, partition, 0);
                let found = if place < before.len() {
                    place
                } else {
                    after.len() as int
                };
                assert forall|i: int| 0 <= i < found implies (#[trigger] after[i]).topic_partition
                    != partition by {
                    if i != at {
                        assert(after[i] == before[i]);
                    }
                }
                if place < before.len() {
                    assert(place != at);
                    assert(after[place] == before[place]);
                }
                lemma_place_found(after, partition, 0, found);
            }
        }
    }
}

/// Why a sink transaction is refused.
#[derive(Debug, Clone, Copy, PartialEq, Eq, Structural)]
pub enum SinkFault {
    /// The two checkpoints are of different partitions.
    CheckpointPartitions,
    /// An append is of another partition.
    AppendPartition,
}

impl SinkFault {
    /// Message for operators.
    pub open spec fn text(self) -> Seq<char> {
        match self {
            SinkFault::CheckpointPartitions =>
                "expected and next checkpoints refer to different partitions"@,
            SinkFault::AppendPartition =>
                "sink transaction contains appends from another partition"@,
        }
    }

    /// Message for operators.
    pub fn message(self) -> (message: &'static str)
        ensures
            message@ == self.text(),
    {
        match self {
            SinkFault::CheckpointPartitions =>
                "expected and next checkpoints refer to different partitions",
            SinkFault::AppendPartition =>
                "sink transaction contains appends from another partition",
        }
    }
}

/// Tests the partitions of a sink transaction.
pub fn check_transaction(
    expected: SinkCheckpoint,
    appends: &Vec<TopicPartition>,
    next: SinkCheckpoint,
) -> (result: Result<(), SinkFault>)
    ensures
        match result {
            Ok(_) => expected.topic_partition == next.topic_partition && forall|i: int|
                0 <= i < appends@.len() ==> #[trigger] appends@[i] == expected.topic_partition,
            Err(SinkFault::CheckpointPartitions) => expected.topic_partition
                != next.topic_partition,
            Err(SinkFault::AppendPartition) => expected.topic_partition == next.topic_partition
                && exists|i: int|
                0 <= i < appends@.len() && #[trigger] appends@[i] != expected.topic_partition,
        },
{
    if expected.topic_partition != next.topic_partition {
        return Err(SinkFault::CheckpointPartitions);
    }
    let mut index: usize = 0;
    while index < appends.len()
        invariant
            expected.topic_partition == next.topic_partition,
            index <= appends@.len(),
            forall|i: int| 0 <= i < index ==> #[trigger] appends@[i] == expected.topic_partition,
        decreases appends@.len() - index,
    {
        if appends[index] != expected.topic_partition {
            return Err(SinkFault::AppendPartition);
        }
        index = index + 1;
    }
    Ok(())
}

/// Outcome of a sink transaction.
#[derive(Debug, Clone, Copy, PartialEq, Eq, Structural)]
pub enum SinkApply {
    /// The appends are indexed and the checkpoint is stored.
    Applied,
    /// The sink is elsewhere; it is at this checkpoint.
    CheckpointConflict(SinkCheckpoint),
}

/// The checkpoint of a partition, or its first one.
pub open spec fn actual_checkpoint(
    checkpoints: Seq<SinkCheckpoint>,
    initial: SinkCheckpoint,
) -> SinkCheckpoint {
    match checkpoint_in(checkpoints, initial.topic_partition) {
        Some(found) => found,
        None => initial,
    }
}

impl SinkCheckpoints {
    /// The checkpoint of a partition, or its first one.
    pub fn actual(&self, initial: SinkCheckpoint) -> (checkpoint: SinkCheckpoint)
        ensures
            checkpoint == actual_checkpoint(self.list@, initial),
    {
        match self.load(initial.topic_partition) {
            Some(found) => found,
            None => initial,
        }
    }

    /// Ends a sink transaction: a checkpoint that does not follow the actual one is a
    /// conflict and changes nothing; else the next one is stored once the appends are
    /// indexed and journaled.
    pub fn commit(
        &mut self,
        initial: SinkCheckpoint,
        follows: bool,
        recorded: Result<(), LogDbError>,
        next: SinkCheckpoint,
    ) -> (result: Result<SinkApply, LogDbError>)
        ensures
            !follows ==> result == Ok::<_, LogDbError>(
                SinkApply::CheckpointConflict(actual_checkpoint(old(self).list@, initial)),
            ) && final(self).list@ == old(self).list@,
            follows && recorded is Err ==> result == Err::<SinkApply, _>(recorded->Err_0)
                && final(self).list@ == old(self).list@,
            follows && recorded is Ok ==> {
                &&& result == Ok::<_, LogDbError>(SinkApply::Applied)
                &&& checkpoint_in(final(self).list@, next.topic_partition) == Some(next)
                &&& forall|partition: TopicPartition|
                    partition != next.topic_partition ==> #[trigger] checkpoint_in(
                        final(self).list@,
                        partition,
                    ) == checkpoint_in(old(self).list@, partition)
            },
    {
        if !follows {
            return Ok(SinkApply::CheckpointConflict(self.actual(initial)));
        }
        match recorded {
            Ok(_) => {
                self.store(next);
                Ok(SinkApply::Applied)
            },
            Err(error) => Err(error),
        }
    }

    /// Takes a recovered transaction: one that does not follow the actual checkpoint
    /// shows that journals contradict each other.
    pub fn recover(&mut self, follows: bool, next: SinkCheckpoint) -> (result: Result<
        (),
        LogDbError,
    >)
        ensures
            !follows ==> result == Err::<(), _>(LogDbError::CorruptSinkJournal)
                && final(self).list@ == old(self).list@,
            follows ==> {
                &&& result is Ok
                &&& checkpoint_in(final(self).list@, next.topic_partition) == Some(next)
                &&& forall|partition: TopicPartition|
                    partition != next.topic_partition ==> #[trigger] checkpoint_in(
                        final(self).list@,
                        partition,
                    ) == checkpoint_in(old(self).list@, partition)
            },
    {
        if !follows {
            return Err(LogDbError::CorruptSinkJournal);
        }
        self.store(next);
        Ok(())
    }
}

/// Sequences of recovered transactions.
pub open spec fn sequence_keys(expected: Seq<SinkCheckpoint>) -> Seq<u128> {
    expected.map_values(|item: SinkCheckpoint| item.next_placement_sequence as u128)
}

/// Partitions of recovered transactions.
pub open spec fn partition_keys(expected: Seq<SinkCheckpoint>) -> Seq<u128> {
    expected.map_values(|item: SinkCheckpoint| item.topic_partition.partition_id.0 as u128)
}

/// Topics of recovered transactions.
pub open spec fn topic_keys(expected: Seq<SinkCheckpoint>) -> Seq<u128> {
    expected.map_values(|item: SinkCheckpoint| item.topic_partition.topic_id.0)
}

/// The places in an order, read through the places of another one.
pub open spec fn through(order: Seq<usize>, places: Seq<usize>) -> Seq<usize> {
    order.map_values(|place: usize| places[place as int])
}

/// Order of recovered transactions: by topic, then partition, then sequence; equal ones
/// keep their order.
pub open spec fn recovery_order_of(expected: Seq<SinkCheckpoint>) -> Seq<usize> {
    let first = order_of(sequence_keys(expected));
    let by_sequence = arranged(expected, first);
    let second = through(order_of(partition_keys(by_sequence)), first);
    let by_partition = arranged(expected, second);
    through(order_of(topic_keys(by_partition)), second)
}

/// Which part of a checkpoint transactions are sorted by.
#[derive(Clone, Copy, PartialEq, Eq, Structural)]
enum RecoveryKey {
    Sequence,
    Partition,
    Topic,
}

spec fn recovery_keys(expected: Seq<SinkCheckpoint>, key: RecoveryKey) -> Seq<u128> {
    match key {
        RecoveryKey::Sequence => sequence_keys(expected),
        RecoveryKey::Partition => partition_keys(expected),
        RecoveryKey::Topic => topic_keys(expected),
    }
}

/// Sorts places by a key; equal keys keep their order.
fn sort_places(expected: &Vec<SinkCheckpoint>, places: &Vec<usize>, key: RecoveryKey) -> (sorted: Vec<
    usize,
>)
    requires
        forall|i: int| 0 <= i < places@.len() ==> #[trigger] places@[i] < expected@.len(),
    ensures
        sorted@ == through(
            order_of(recovery_keys(arranged(expected@, places@), key)),
            places@,
        ),
        sorted@.len() == places@.len(),
        forall|i: int| 0 <= i < sorted@.len() ==> #[trigger] sorted@[i] < expected@.len(),
{
    let ghost listed = arranged(expected@, places@);
    let mut keys: Vec<u128> = Vec::new();
    let mut index: usize = 0;
    while index < places.len()
        invariant
            index <= places@.len(),
            forall|i: int| 0 <= i < places@.len() ==> #[trigger] places@[i] < expected@.len(),
            listed == arranged(expected@, places@),
            keys@.len() == index,
            forall|i: int| 0 <= i < index ==> keys@[i] == recovery_keys(listed, key)[i],
        decreases places@.len() - index,
    {
        let item = expected[places[index]];
        proof {
            assert(listed[index as int] == item);
        }
        let value: u128 = match key {
            RecoveryKey::Sequence => item.next_placement_sequence as u128,
            RecoveryKey::Partition => item.topic_partition.partition_id.0 as u128,
            RecoveryKey::Topic => item.topic_partition.topic_id.0,
        };
        keys.push(value);
        index = index + 1;
    }
    proof {
        assert(keys@ =~= recovery_keys(listed, key));
    }
    let order = stable_order(&keys);
    let mut sorted: Vec<usize> = Vec::new();
    let mut place: usize = 0;
    while place < order.len()
        invariant
            place <= order@.len(),
            is_order(keys@, order@),
            keys@.len() == places@.len(),
            forall|i: int| 0 <= i < places@.len() ==> #[trigger] places@[i] < expected@.len(),
            sorted@.len() == place,
            forall|i: int| 0 <= i < place ==> sorted@[i] == through(order@, places@)[i],
            forall|i: int| 0 <= i < place ==> #[trigger] sorted@[i] < expected@.len(),
        decreases order@.len() - place,
    {
        let at: usize = order[place];
        sorted.push(places[at]);
        place = place + 1;
    }
    proof {
        assert(sorted@ =~= through(order@, places@));
    }
    sorted
}

/// Order in which recovered transactions are taken, given the checkpoints that they
/// expect.
pub fn recovery_order(expected: &Vec<SinkCheckpoint>) -> (order: Vec<usize>)
    ensures
        order@ == recovery_order_of(expected@),
        forall|i: int| 0 <= i < order@.len() ==> #[trigger] order@[i] < expected@.len(),
{
    let mut places: Vec<usize> = Vec::new();
    let mut index: usize = 0;
    while index < expected.len()
        invariant
            index <= expected@.len(),
            places@.len() == index,
            forall|i: int| 0 <= i < index ==> #[trigger] places@[i] == i,
        decreases expected@.len() - index,
    {
        places.push(index);
        index = index + 1;
    }
    proof {
        assert(arranged(expected@, places@) =~= expected@);
    }
    let by_sequence = sort_places(expected, &places, RecoveryKey::Sequence);
    proof {
        let first = order_of(sequence_keys(expected@));
        lemma_order_exists(sequence_keys(expected@));
        assert(by_sequence@ =~= first) by {
            assert forall|i: int| 0 <= i < first.len() implies by_sequence@[i] == first[i] by {
                assert(by_sequence@[i] == places@[first[i] as int]);
            }
        }
    }
    let by_partition = sort_places(expected, &by_sequence, RecoveryKey::Partition);
    sort_places(expected, &by_partition, RecoveryKey::Topic)
}

/// Durable append to index.
#[derive(Debug, PartialEq, Eq)]
pub struct DurableAppend {
    /// Shard that wrote the append.
    pub physical_shard_id: ShardId,
    /// Partition of the append.
    pub topic_partition: TopicPartition,
    /// First offset.
    pub first_offset: LogicalOffset,
    /// Number of records.
    pub record_count: u32,
    /// Payload.
    pub payload: Vec<u8>,
    /// What the writer kept in memory for the index.
    pub transient_context: Option<Vec<u8>>,
}

/// Events of an append that is no compressed pack, or why it cannot be indexed.
pub open spec fn append_events_of(append: DurableAppend, shard: ShardId) -> Result<
    Seq<EventModel>,
    LogDbFault,
> {
    let source = match append.transient_context {
        Some(context) => if is_native(context@) {
            context@
        } else {
            append.payload@
        },
        None => append.payload@,
    };
    if append.physical_shard_id != shard {
        Err((LogDbError::WrongStripe { expected: shard, observed: append.physical_shard_id })@)
    } else {
        match payload_events(source) {
            Err(error) => Err(error),
            Ok(events) => if events.len() > u32::MAX {
                Err(LogDbError::InvalidConfig(ConfigFault::TooManyRecords)@)
            } else if events.len() != append.record_count {
                Err(LogDbError::InvalidConfig(ConfigFault::AppendRecordCount)@)
            } else {
                Ok(events)
            },
        }
    }
}

proof fn lemma_magics_differ(payload: Seq<u8>)
    requires
        is_native(payload),
    ensures
        !is_pack(payload),
{
    assert(batch_magic()[2] != pack_magic()[2]);
}

/// The events of an append that is no compressed pack.
pub fn append_events(append: &DurableAppend, shard: ShardId) -> (result: Result<
    Vec<OtlpLogEvent>,
    LogDbError,
>)
    requires
        !is_pack(append.payload@),
    ensures
        match (append_events_of(*append, shard), result) {
            (Ok(models), Ok(events)) => events_view(events@) == models,
            (Err(fault), Err(error)) => error@ == fault,
            _ => false,
        },
{
    if append.physical_shard_id != shard {
        return Err(
            LogDbError::WrongStripe { expected: shard, observed: append.physical_shard_id },
        );
    }
    let decoded = match &append.transient_context {
        Some(context) => if is_native_log_batch(context.as_slice()) {
            proof {
                lemma_magics_differ(context@);
            }
            decode_log_events(context.as_slice())
        } else {
            decode_log_events(append.payload.as_slice())
        },
        None => decode_log_events(append.payload.as_slice()),
    };
    match decoded {
        Ok(events) => {
            proof {
                assert(events_view(events@).len() == events@.len());
            }
            if events.len() as u64 > u32::MAX as u64 {
                return Err(LogDbError::InvalidConfig(ConfigFault::TooManyRecords));
            }
            if events.len() as u32 != append.record_count {
                return Err(LogDbError::InvalidConfig(ConfigFault::AppendRecordCount));
            }
            Ok(events)
        },
        Err(error) => Err(error),
    }
}

/// Indexes the events of an append, given the terms of each message.
pub fn index_durable_append(
    stripe: &mut LogStripe,
    append: &DurableAppend,
    events: Vec<OtlpLogEvent>,
    terms: &Vec<Vec<String>>,
) -> (result: Result<(), LogDbError>)
    requires
        old(stripe).well_formed(),
        events@.len() == terms@.len(),
        forall|i: int, j: int|
            0 <= i < terms@.len() && 0 <= j < terms@.len() && (#[trigger] events@[i])@.message == (
            #[trigger] events@[j])@.message ==> search_forms(terms@[i]@) == search_forms(
                terms@[j]@,
            ),
    ensures
        final(stripe).well_formed(),
        ({
            let partition = append.topic_partition;
            let after = batch_published(
                old(stripe).model(partition),
                old(stripe).stream_shard_id,
                partition,
                append.first_offset,
                events_view(events@),
                batch_terms(terms@),
                events@.len(),
            );
            if events@.len() > 0 && append.first_offset.0 + (events@.len() - 1) > u64::MAX {
                *final(stripe) == *old(stripe) && result == Err::<(), _>(
                    LogDbError::OffsetExhausted(partition),
                )
            } else {
                final(stripe).differs_in(*old(stripe), partition, after.0) && result == after.1
            }
        }),
{
    match stripe.apply_otlp_events(append.topic_partition, append.first_offset, events, terms) {
        Ok(_) => Ok(()),
        Err(error) => Err(error),
    }
}

} // verus!
