//! Laws of asking several shards, and of taking in a remote write.
use vstd::prelude::*;

use crate::error::LogDbError;
use crate::frame_query::stripe_answer;
use crate::log_query::{LogQueryModel, RecordModel};
use crate::log_stripe::LogStripe;
use crate::production::{acquired, ProductionRuntime, ServiceState};
use crate::prometheus::{RemoteWriteVersion, WriteFault, WriteStatus};
use crate::record::ShardId;
use crate::remote_write::{counted_write, decoded, received, reserved, WriteNext};
use crate::stripe_query::{first_duplicate, selected_answers, stripe_answers, stripe_place};

verus! {

broadcast use vstd::seq_lib::group_seq_properties;

/// Whether a stripe of a shard is held.
pub open spec fn holds_shard(stripes: Seq<LogStripe>, shard: ShardId) -> bool {
    exists|i: int| 0 <= i < stripes.len() && (#[trigger] stripes[i]).stream_shard_id == shard
}

/// Whether shards are told apart.
pub open spec fn shards_differ(stripes: Seq<LogStripe>) -> bool {
    forall|i: int, j: int|
        0 <= i < j < stripes.len() ==> (#[trigger] stripes[i]).stream_shard_id != (
        #[trigger] stripes[j]).stream_shard_id
}

/// The stripe of a shard is the first one that has its number; where there is none, the place
/// is behind all.
pub proof fn stripes_are_found_by_their_shard(stripes: Seq<LogStripe>, shard: ShardId, from: int)
    requires
        0 <= from <= stripes.len(),
    ensures
        ({
            let at = stripe_place(stripes, shard, from);
            &&& from <= at <= stripes.len()
            &&& at < stripes.len() ==> stripes[at].stream_shard_id == shard
            &&& forall|i: int|
                from <= i < at ==> (#[trigger] stripes[i]).stream_shard_id != shard
        }),
    decreases stripes.len() - from,
{
    if from < stripes.len() && stripes[from].stream_shard_id != shard {
        stripes_are_found_by_their_shard(stripes, shard, from + 1);
    }
}

/// A shard is reported as repeated where it occurs twice, and none is where all differ.
pub proof fn repeated_shards_are_reported(shards: Seq<ShardId>, count: nat)
    requires
        count <= shards.len(),
    ensures
        first_duplicate(shards, count) is Some <==> exists|i: int, j: int|
            0 <= i < j < count && #[trigger] shards[i] == #[trigger] shards[j],
        first_duplicate(shards, count) matches Some(shard) ==> exists|i: int, j: int|
            0 <= i < j < count && #[trigger] shards[i] == shard && #[trigger] shards[j] == shard,
    decreases count,
{
    if count > 0 {
        let early = (count - 1) as nat;
        let front = shards.subrange(0, count - 1);
        let last = shards[count - 1];
        repeated_shards_are_reported(shards, early);
        if first_duplicate(shards, early) is None {
            if front.contains(last) {
                let i = choose|i: int| 0 <= i < front.len() && front[i] == last;
                assert(shards[i] == shards[count - 1]);
            } else {
                assert forall|i: int| 0 <= i < count - 1 implies #[trigger] shards[i] != last by {
                    assert(front[i] == shards[i]);
                    assert(front.contains(front[i]));
                }
            }
        }
    }
}

/// Asking shards fails where one of them is unknown, and gives otherwise the answers of
/// their stripes and nothing else.
pub proof fn named_shards_are_asked(
    stripes: Seq<LogStripe>,
    shards: Seq<ShardId>,
    query: LogQueryModel,
    count: nat,
    record: RecordModel,
)
    requires
        count <= shards.len(),
        shards_differ(stripes),
    ensures
        selected_answers(stripes, shards, query, count) is Ok <==> forall|i: int|
            0 <= i < count ==> holds_shard(stripes, #[trigger] shards[i]),
        selected_answers(stripes, shards, query, count) matches Err(error) ==> exists|i: int|
            {
                &&& 0 <= i < count
                &&& error == LogDbError::UnknownStripe(#[trigger] shards[i])
                &&& !holds_shard(stripes, shards[i])
            },
        selected_answers(stripes, shards, query, count) matches Ok(found) ==> (found.contains(
            record,
        ) <==> exists|i: int, j: int|
            {
                &&& 0 <= i < count
                &&& 0 <= j < stripes.len()
                &&& (#[trigger] stripes[j]).stream_shard_id == #[trigger] shards[i]
                &&& stripe_answer(stripes[j], query).contains(record)
            }),
    decreases count,
{
    if count > 0 {
        let early = (count - 1) as nat;
        let front = shards.subrange(0, count - 1);
        let shard = shards[count - 1];
        let at = stripe_place(stripes, shard, 0);
        named_shards_are_asked(stripes, shards, query, early, record);
        stripes_are_found_by_their_shard(stripes, shard, 0);
        assert(holds_shard(stripes, shard) <==> at < stripes.len()) by {
            if holds_shard(stripes, shard) {
                let i = choose|i: int|
                    0 <= i < stripes.len() && (#[trigger] stripes[i]).stream_shard_id == shard;
                assert(at <= i);
            }
        }
        let earlier = selected_answers(stripes, shards, query, early);
        if earlier is Ok {
            let found = earlier->Ok_0;
            if front.contains(shard) {
                let k = choose|k: int| 0 <= k < front.len() && front[k] == shard;
                assert(shards[k] == shard);
                assert(holds_shard(stripes, shards[k]));
                if stripe_answer(stripes[at], query).contains(record) {
                    assert(stripes[at].stream_shard_id == shards[k]);
                    assert(found.contains(record));
                }
                lemma_one_more(stripes, shards, query, count, record, at);
            } else if at < stripes.len() {
                let added = stripe_answer(stripes[at], query);
                lemma_one_more(stripes, shards, query, count, record, at);
                lemma_joined_contains(found, added, record);
            }
        }
    }
}

/// Whether one of the first shards answers with a record.
pub open spec fn answered_by(
    stripes: Seq<LogStripe>,
    shards: Seq<ShardId>,
    query: LogQueryModel,
    count: int,
    record: RecordModel,
) -> bool {
    exists|i: int, j: int|
        {
            &&& 0 <= i < count
            &&& 0 <= j < stripes.len()
            &&& (#[trigger] stripes[j]).stream_shard_id == #[trigger] shards[i]
            &&& stripe_answer(stripes[j], query).contains(record)
        }
}

proof fn lemma_one_more(
    stripes: Seq<LogStripe>,
    shards: Seq<ShardId>,
    query: LogQueryModel,
    count: nat,
    record: RecordModel,
    at: int,
)
    requires
        0 < count <= shards.len(),
        shards_differ(stripes),
        0 <= at < stripes.len(),
        stripes[at].stream_shard_id == shards[count - 1],
    ensures
        answered_by(stripes, shards, query, count as int, record) <==> answered_by(
            stripes,
            shards,
            query,
            count - 1,
            record,
        ) || stripe_answer(stripes[at], query).contains(record),
{
    if answered_by(stripes, shards, query, count as int, record) {
        let (i, j) = choose|i: int, j: int|
            {
                &&& 0 <= i < count
                &&& 0 <= j < stripes.len()
                &&& (#[trigger] stripes[j]).stream_shard_id == #[trigger] shards[i]
                &&& stripe_answer(stripes[j], query).contains(record)
            };
        if i == count - 1 {
            assert(j == at);
        }
    }
    if stripe_answer(stripes[at], query).contains(record) {
        assert(stripes[at].stream_shard_id == shards[count - 1]);
    }
}

proof fn lemma_joined_contains(front: Seq<RecordModel>, more: Seq<RecordModel>, record: RecordModel)
    ensures
        (front + more).contains(record) <==> front.contains(record) || more.contains(record),
{
    let all = front + more;
    if all.contains(record) {
        let i = choose|i: int| 0 <= i < all.len() && all[i] == record;
        if i < front.len() {
            assert(front[i] == record);
        } else {
            assert(more[i - front.len()] == record);
        }
    }
    if front.contains(record) {
        let i = choose|i: int| 0 <= i < front.len() && front[i] == record;
        assert(all[i] == record);
    }
    if more.contains(record) {
        let i = choose|i: int| 0 <= i < more.len() && more[i] == record;
        assert(all[front.len() + i] == record);
    }
}

proof fn lemma_more_shards(
    stripes: Seq<LogStripe>,
    shards: Seq<ShardId>,
    shard: ShardId,
    query: LogQueryModel,
    count: nat,
)
    requires
        count <= shards.len(),
    ensures
        selected_answers(stripes, shards.push(shard), query, count) == selected_answers(
            stripes,
            shards,
            query,
            count,
        ),
    decreases count,
{
    if count > 0 {
        lemma_more_shards(stripes, shards, shard, query, (count - 1) as nat);
        assert(shards.push(shard).subrange(0, count - 1) =~= shards.subrange(0, count - 1));
    }
}

/// Naming a shard a second time changes nothing of the answers.
pub proof fn shards_are_asked_once(
    stripes: Seq<LogStripe>,
    shards: Seq<ShardId>,
    shard: ShardId,
    query: LogQueryModel,
)
    requires
        shards.contains(shard),
    ensures
        selected_answers(stripes, shards.push(shard), query, shards.len() + 1) == selected_answers(
            stripes,
            shards,
            query,
            shards.len(),
        ),
{
    let more = shards.push(shard);
    lemma_more_shards(stripes, shards, shard, query, shards.len());
    assert(more.subrange(0, shards.len() as int) =~= shards);
    assert(more[shards.len() as int] == shard);
}

/// Naming another known shard puts the answers of its stripe behind the others.
pub proof fn another_shard_adds_its_answers(
    stripes: Seq<LogStripe>,
    shards: Seq<ShardId>,
    at: int,
    query: LogQueryModel,
)
    requires
        shards_differ(stripes),
        0 <= at < stripes.len(),
        !shards.contains(stripes[at].stream_shard_id),
    ensures
        ({
            let more = shards.push(stripes[at].stream_shard_id);
            match selected_answers(stripes, shards, query, shards.len()) {
                Ok(front) => selected_answers(stripes, more, query, more.len()) == Ok::<
                    _,
                    LogDbError,
                >(front + stripe_answer(stripes[at], query)),
                Err(error) => selected_answers(stripes, more, query, more.len()) == Err::<
                    Seq<RecordModel>,
                    LogDbError,
                >(error),
            }
        }),
{
    let shard = stripes[at].stream_shard_id;
    let more = shards.push(shard);
    lemma_more_shards(stripes, shards, shard, query, shards.len());
    assert(more.subrange(0, shards.len() as int) =~= shards);
    assert(more[shards.len() as int] == shard);
    stripes_are_found_by_their_shard(stripes, shard, 0);
    let place = stripe_place(stripes, shard, 0);
    assert(place <= at);
    if place < at {
        assert(stripes[place].stream_shard_id != stripes[at].stream_shard_id);
    }
}

/// Answers of all stripes are those of the first ones and those of the others.
pub proof fn answers_of_stripes_join(
    first: Seq<LogStripe>,
    second: Seq<LogStripe>,
    query: LogQueryModel,
)
    ensures
        stripe_answers(first + second, query) == stripe_answers(first, query) + stripe_answers(
            second,
            query,
        ),
        second.len() == 1 ==> stripe_answers(second, query) == stripe_answer(second[0], query),
    decreases second.len(),
{
    if second.len() == 0 {
        assert(first + second =~= first);
        assert(stripe_answers(second, query) =~= Seq::<RecordModel>::empty());
        assert(stripe_answers(first, query) + Seq::<RecordModel>::empty() =~= stripe_answers(
            first,
            query,
        ));
    } else {
        let all = first + second;
        answers_of_stripes_join(first, second.drop_last(), query);
        assert(all.drop_last() =~= first + second.drop_last());
        assert(all.last() == second.last());
        if second.len() == 1 {
            assert(stripe_answers(second.drop_last(), query) =~= Seq::<RecordModel>::empty());
            assert(stripe_answers(second, query) =~= stripe_answer(second[0], query));
        }
        assert(stripe_answers(all, query) =~= stripe_answers(first, query) + stripe_answers(
            second,
            query,
        ));
    }
}

proof fn lemma_all_named(stripes: Seq<LogStripe>, shards: Seq<ShardId>, query: LogQueryModel, n: nat)
    requires
        shards_differ(stripes),
        n <= stripes.len(),
        shards.len() == stripes.len(),
        forall|i: int|
            0 <= i < stripes.len() ==> (#[trigger] stripes[i]).stream_shard_id == shards[i],
    ensures
        selected_answers(stripes, shards, query, n) == Ok::<_, LogDbError>(
            stripe_answers(stripes.subrange(0, n as int), query),
        ),
    decreases n,
{
    let held = stripes.subrange(0, n as int);
    if n == 0 {
        assert(stripe_answers(held, query) =~= Seq::<RecordModel>::empty());
    } else {
        lemma_all_named(stripes, shards, query, (n - 1) as nat);
        assert(held.drop_last() =~= stripes.subrange(0, n - 1));
        assert(held.last() == stripes[n - 1]);
        let front = shards.subrange(0, n - 1);
        let shard = shards[n - 1];
        assert(stripes[n - 1].stream_shard_id == shard);
        assert(!front.contains(shard)) by {
            if front.contains(shard) {
                let i = choose|i: int| 0 <= i < front.len() && front[i] == shard;
                assert(stripes[i].stream_shard_id == shards[i]);
            }
        }
        stripes_are_found_by_their_shard(stripes, shard, 0);
        let place = stripe_place(stripes, shard, 0);
        assert(place <= n - 1);
        if place < n - 1 {
            assert(stripes[place].stream_shard_id != stripes[n - 1].stream_shard_id);
        }
    }
}

/// Naming every shard gives what asking all of them gives.
pub proof fn naming_all_shards_asks_all(
    stripes: Seq<LogStripe>,
    shards: Seq<ShardId>,
    query: LogQueryModel,
)
    requires
        shards_differ(stripes),
        shards.len() == stripes.len(),
        forall|i: int|
            0 <= i < stripes.len() ==> (#[trigger] stripes[i]).stream_shard_id == shards[i],
    ensures
        selected_answers(stripes, shards, query, shards.len()) == Ok::<_, LogDbError>(
            stripe_answers(stripes, query),
        ),
{
    lemma_all_named(stripes, shards, query, shards.len());
    assert(stripes.subrange(0, stripes.len() as int) =~= stripes);
}

/// A write is taken in where its tenant is the configured one or not named, its credential is
/// accepted, and its content can be read: the payload is handed on with its schema. The tenant
/// is looked at before the credential, and the credential before the content.
pub proof fn writes_are_taken_in(
    tenant: Seq<char>,
    largest: usize,
    runtime: Option<ProductionRuntime>,
    scope: Option<Seq<char>>,
    bearer: Option<Seq<char>>,
    schema: Result<RemoteWriteVersion, WriteFault>,
    payload: Result<Seq<u8>, WriteFault>,
)
    ensures
        ({
            let (outcome, after) = received(
                tenant,
                largest,
                runtime,
                scope,
                bearer,
                schema,
                payload,
            );
            let foreign = scope matches Some(name) && name != tenant;
            let admitted = runtime matches Some(before) ==> {
                &&& (bearer matches Some(token) && before.config.accepts_token(token))
                &&& before.http.in_flight < before.config.max_http_in_flight
            };
            &&& outcome is Ok <==> !foreign && admitted && schema is Ok && payload is Ok
            &&& outcome matches Ok((version, bytes)) ==> schema == Ok::<_, WriteFault>(version)
                && payload == Ok::<_, WriteFault>(bytes)
            &&& foreign ==> after == runtime && (outcome matches Err(fault) && fault.status
                == WriteStatus::Forbidden)
            &&& !foreign && !admitted ==> (outcome matches Err(fault) && (fault.status
                == WriteStatus::Unauthorized || fault.status == WriteStatus::TooManyRequests))
            &&& !foreign && admitted ==> (schema matches Err(fault) ==> outcome == Err::<
                (RemoteWriteVersion, Seq<u8>),
                WriteFault,
            >(fault))
            &&& !foreign && admitted && schema is Ok ==> (payload matches Err(fault) ==> outcome
                == Err::<(RemoteWriteVersion, Seq<u8>), WriteFault>(fault))
            &&& after is Some <==> runtime is Some
        }),
{
}

/// A batch is appended where the service is ready, the bucket pays for its bytes and a permit
/// is free, and takes one permit; a refused one takes none and is counted as rejected.
pub proof fn batches_need_room(runtime: ProductionRuntime, bytes: usize, elapsed: u128)
    requires
        runtime.well_formed(),
    ensures
        ({
            let (fault, after) = reserved(runtime, bytes, elapsed);
            let ready = runtime.lifecycle.state == ServiceState::Ready;
            let paid = acquired(runtime.rate, bytes as nat, elapsed).1;
            let free = runtime.ingest.in_flight < runtime.config.max_ingest_in_flight;
            &&& fault is None <==> ready && paid && free
            &&& !ready ==> after.rate == runtime.rate && (fault matches Some(fault) && fault.status
                == WriteStatus::Unavailable)
            &&& ready && !(paid && free) ==> (fault matches Some(fault) && fault.status
                == WriteStatus::TooManyRequests)
            &&& ready ==> after.rate == acquired(runtime.rate, bytes as nat, elapsed).0
            &&& fault is None ==> after.ingest.in_flight == runtime.ingest.in_flight + 1
                && after.metrics == runtime.metrics
            &&& fault is Some ==> after.ingest == runtime.ingest
            &&& fault is Some && runtime.metrics.rejected_requests < u64::MAX
                ==> after.metrics.rejected_requests == runtime.metrics.rejected_requests + 1
            &&& after.http == runtime.http && after.config == runtime.config && after.lifecycle
                == runtime.lifecycle
        }),
{
}

/// An empty batch is answered without asking for anything; any other is appended where there
/// is room or where nothing is limited.
pub proof fn batches_are_appended(
    runtime: Option<ProductionRuntime>,
    partitions: usize,
    bytes: usize,
    elapsed: u128,
)
    ensures
        ({
            let (outcome, after) = decoded(runtime, partitions, bytes, elapsed);
            &&& outcome == Ok::<_, WriteFault>(WriteNext::Answer) <==> partitions == 0
            &&& partitions == 0 ==> after == runtime
            &&& outcome == Ok::<_, WriteFault>(WriteNext::Append) <==> partitions > 0 && (
            runtime matches Some(before) ==> reserved(before, bytes, elapsed).0 is None)
            &&& partitions > 0 ==> (runtime matches Some(before) ==> after == Some(
                reserved(before, bytes, elapsed).1,
            ))
            &&& runtime is None ==> after is None
        }),
{
}

/// A write counts one request, its bytes and its records, and changes nothing else.
pub proof fn writes_are_counted(runtime: ProductionRuntime, bytes: usize, records: u64)
    ensures
        ({
            let before = runtime.metrics;
            let after = counted_write(runtime, bytes, records).metrics;
            &&& before.ingest_requests < u64::MAX ==> after.ingest_requests
                == before.ingest_requests + 1
            &&& before.ingest_bytes + bytes <= u64::MAX && bytes <= u64::MAX ==> after.ingest_bytes
                == before.ingest_bytes + bytes
            &&& before.ingest_records + records <= u64::MAX ==> after.ingest_records
                == before.ingest_records + records
            &&& after.rejected_requests == before.rejected_requests
            &&& counted_write(runtime, bytes, records).ingest == runtime.ingest
            &&& counted_write(runtime, bytes, records).http == runtime.http
            &&& counted_write(runtime, bytes, records).rate == runtime.rate
        }),
{
}

} // verus!
