//! What becomes of an OTLP export: one event for each record, and nothing else.
use vstd::prelude::*;
use vstd::utf8::encode_utf8;

use crate::codec::decimal_text;
use crate::error::LogDbFault;
use crate::hash::{fnv_bytes, fnv_step};
use crate::labels::Pairs;
use crate::otlp::{
    attribute_fields, decoded_any_value, decoded_export, decoded_log_record,
    decoded_resource_logs, decoded_scope_logs, durable_events, export_events, fields_text,
    first_value, has_field, hex_digit, hex_text, items_text, known_attributes, record_event,
    records_events, resource_fields_of, resources_events, scope_fields_of, scopes_events,
    service_fields, signed_text, top_text, value_text, AttributeModel, LogRecordModel, NodeModel,
    ScopeModel, MAX_VALUE_DEPTH,
};
use crate::push_laws::{decimal, is_decimal, writes};
use crate::record::{EventModel, LogicalOffset, ShardId, TopicPartition};

verus! {

broadcast use vstd::seq_lib::group_seq_properties;

proof fn lemma_resources_join(first: Seq<Seq<u8>>, second: Seq<Seq<u8>>)
    ensures
        resources_events(first + second) == resources_events(first) + resources_events(second),
    decreases second.len(),
{
    if second.len() == 0 {
        assert(first + second =~= first);
        assert(resources_events(first) + Seq::<EventModel>::empty() =~= resources_events(first));
    } else {
        let front = second.drop_last();
        lemma_resources_join(first, front);
        assert((first + second).drop_last() =~= first + front);
        assert((first + second).last() == second.last());
        assert(resources_events(first + second) =~= resources_events(first) + resources_events(
            second,
        ));
    }
}

/// The events of an export whose resources are those of one export and then those of another
/// are the events of the first and then those of the other. An export without resources has
/// no events, and one that does not decode is refused.
pub proof fn exports_join(joined: Seq<u8>, first: Seq<u8>, second: Seq<u8>)
    requires
        decoded_export(first) is Ok,
        decoded_export(second) is Ok,
        decoded_export(joined) == Ok::<_, Seq<char>>(
            decoded_export(first)->Ok_0 + decoded_export(second)->Ok_0,
        ),
    ensures
        export_events(first) is Ok,
        export_events(second) is Ok,
        export_events(joined) == Ok::<_, LogDbFault>(
            export_events(first)->Ok_0 + export_events(second)->Ok_0,
        ),
        decoded_export(first)->Ok_0.len() == 0 ==> export_events(first)->Ok_0.len() == 0,
{
    lemma_resources_join(decoded_export(first)->Ok_0, decoded_export(second)->Ok_0);
}

/// An export is refused exactly where it does not decode.
pub proof fn exports_are_refused_as_they_decode(payload: Seq<u8>)
    ensures
        export_events(payload) is Err <==> decoded_export(payload) is Err,
        decoded_export(payload) matches Err(text) ==> export_events(payload) == Err::<
            Seq<EventModel>,
            _,
        >(LogDbFault::InvalidOtlpPayload(text)),
{
}

proof fn lemma_one_resource(message: Seq<u8>)
    ensures
        resources_events(seq![message]) == match decoded_resource_logs(message) {
            Some((attributes, scopes)) => scopes_events(
                scopes,
                resource_fields_of(known_attributes(attributes)),
            ),
            None => Seq::empty(),
        },
{
    let one = seq![message];
    assert(one.drop_last() =~= Seq::<Seq<u8>>::empty());
    assert(resources_events(one.drop_last()) =~= Seq::<EventModel>::empty());
    assert(resources_events(one) =~= match decoded_resource_logs(message) {
        Some((attributes, scopes)) => scopes_events(
            scopes,
            resource_fields_of(known_attributes(attributes)),
        ),
        None => Seq::empty(),
    });
}

proof fn lemma_scopes_join(first: Seq<Seq<u8>>, second: Seq<Seq<u8>>, fields: Pairs)
    ensures
        scopes_events(first + second, fields) == scopes_events(first, fields) + scopes_events(
            second,
            fields,
        ),
    decreases second.len(),
{
    if second.len() == 0 {
        assert(first + second =~= first);
        assert(scopes_events(first, fields) + Seq::<EventModel>::empty() =~= scopes_events(
            first,
            fields,
        ));
    } else {
        let front = second.drop_last();
        lemma_scopes_join(first, front, fields);
        assert((first + second).drop_last() =~= first + front);
        assert((first + second).last() == second.last());
        assert(scopes_events(first + second, fields) =~= scopes_events(first, fields)
            + scopes_events(second, fields));
    }
}

/// The events of a resource come scope by scope: a resource whose scopes are those of one and
/// then those of another with the same attributes has the events of the first and then those
/// of the other. Without scopes it has none.
pub proof fn resources_join(joined: Seq<u8>, first: Seq<u8>, second: Seq<u8>)
    requires
        decoded_resource_logs(first) is Some,
        decoded_resource_logs(second) is Some,
        (decoded_resource_logs(first)->0).0 == (decoded_resource_logs(second)->0).0,
        decoded_resource_logs(joined) == Some(
            (
                (decoded_resource_logs(first)->0).0,
                (decoded_resource_logs(first)->0).1 + (decoded_resource_logs(second)->0).1,
            ),
        ),
    ensures
        resources_events(seq![joined]) == resources_events(seq![first]) + resources_events(
            seq![second],
        ),
        (decoded_resource_logs(first)->0).1.len() == 0 ==> resources_events(seq![first]).len()
            == 0,
{
    lemma_one_resource(joined);
    lemma_one_resource(first);
    lemma_one_resource(second);
    lemma_scopes_join(
        (decoded_resource_logs(first)->0).1,
        (decoded_resource_logs(second)->0).1,
        resource_fields_of(known_attributes((decoded_resource_logs(first)->0).0)),
    );
}

proof fn lemma_one_scope(message: Seq<u8>, fields: Pairs)
    ensures
        scopes_events(seq![message], fields) == match decoded_scope_logs(message) {
            Some((scope, records)) => records_events(records, fields, scope),
            None => Seq::empty(),
        },
{
    let one = seq![message];
    assert(one.drop_last() =~= Seq::<Seq<u8>>::empty());
    assert(scopes_events(one.drop_last(), fields) =~= Seq::<EventModel>::empty());
    assert(scopes_events(one, fields) =~= match decoded_scope_logs(message) {
        Some((scope, records)) => records_events(records, fields, scope),
        None => Seq::empty(),
    });
}

proof fn lemma_records_join(
    first: Seq<Seq<u8>>,
    second: Seq<Seq<u8>>,
    fields: Pairs,
    scope: Option<ScopeModel>,
)
    ensures
        records_events(first + second, fields, scope) == records_events(first, fields, scope)
            + records_events(second, fields, scope),
    decreases second.len(),
{
    if second.len() == 0 {
        assert(first + second =~= first);
        assert(records_events(first, fields, scope) + Seq::<EventModel>::empty()
            =~= records_events(first, fields, scope));
    } else {
        let front = second.drop_last();
        lemma_records_join(first, front, fields, scope);
        assert((first + second).drop_last() =~= first + front);
        assert((first + second).last() == second.last());
        assert(records_events(first + second, fields, scope) =~= records_events(
            first,
            fields,
            scope,
        ) + records_events(second, fields, scope));
    }
}

/// The events of a scope come record by record: in a resource, a scope whose records are those
/// of one and then those of another of the same scope has the events of the first and then
/// those of the other. Without records it has none.
pub proof fn scopes_join(
    joined: Seq<u8>,
    first: Seq<u8>,
    second: Seq<u8>,
    attributes: Option<Seq<AttributeModel>>,
    messages: (Seq<u8>, Seq<u8>, Seq<u8>),
)
    requires
        decoded_scope_logs(first) is Some,
        decoded_scope_logs(second) is Some,
        (decoded_scope_logs(first)->0).0 == (decoded_scope_logs(second)->0).0,
        decoded_scope_logs(joined) == Some(
            (
                (decoded_scope_logs(first)->0).0,
                (decoded_scope_logs(first)->0).1 + (decoded_scope_logs(second)->0).1,
            ),
        ),
        decoded_resource_logs(messages.0) == Some((attributes, seq![joined])),
        decoded_resource_logs(messages.1) == Some((attributes, seq![first])),
        decoded_resource_logs(messages.2) == Some((attributes, seq![second])),
    ensures
        resources_events(seq![messages.0]) == resources_events(seq![messages.1])
            + resources_events(seq![messages.2]),
        (decoded_scope_logs(first)->0).1.len() == 0 ==> resources_events(seq![messages.1]).len()
            == 0,
{
    let fields = resource_fields_of(known_attributes(attributes));
    let (scope, a) = decoded_scope_logs(first)->0;
    let b = (decoded_scope_logs(second)->0).1;
    lemma_one_resource(messages.0);
    lemma_one_resource(messages.1);
    lemma_one_resource(messages.2);
    lemma_one_scope(joined, fields);
    lemma_one_scope(first, fields);
    lemma_one_scope(second, fields);
    lemma_records_join(a, b, fields, scope);
}

/// Attributes with a name as fields with a prefix.
pub open spec fn named(prefix: Seq<char>, attributes: Seq<AttributeModel>) -> Pairs {
    attributes.filter(|attribute: AttributeModel| attribute.key.len() > 0).map_values(
        |attribute: AttributeModel| (prefix + attribute.key, top_text(attribute.value)),
    )
}

/// The service names among attributes, under their own name.
pub open spec fn services(attributes: Seq<AttributeModel>) -> Pairs {
    attributes.filter(|attribute: AttributeModel| attribute.key == "service.name"@).map_values(
        |attribute: AttributeModel| ("service.name"@, top_text(attribute.value)),
    )
}

/// A field, where there is something to say.
pub open spec fn said(name: Seq<char>, text: Seq<char>) -> Pairs {
    if text.len() > 0 {
        seq![(name, text)]
    } else {
        Seq::empty()
    }
}

proof fn lemma_named(prefix: Seq<char>, attributes: Seq<AttributeModel>)
    ensures
        attribute_fields(prefix, attributes) == named(prefix, attributes),
    decreases attributes.len(),
{
    reveal(Seq::filter);
    if attributes.len() > 0 {
        let front = attributes.drop_last();
        lemma_named(prefix, front);
        assert(attribute_fields(prefix, attributes) =~= named(prefix, attributes));
    } else {
        assert(attribute_fields(prefix, attributes) =~= named(prefix, attributes));
    }
}

proof fn lemma_services(attributes: Seq<AttributeModel>)
    ensures
        service_fields(attributes) == services(attributes),
    decreases attributes.len(),
{
    reveal(Seq::filter);
    if attributes.len() > 0 {
        let front = attributes.drop_last();
        lemma_services(front);
        assert(service_fields(attributes) =~= services(attributes));
    } else {
        assert(service_fields(attributes) =~= services(attributes));
    }
}

proof fn lemma_first_value(fields: Pairs, name: Seq<char>)
    ensures
        forall|i: int|
            0 <= i < fields.len() && (#[trigger] fields[i]).0 == name && (forall|j: int|
                0 <= j < i ==> (#[trigger] fields[j]).0 != name) ==> first_value(fields, name)
                == fields[i].1,
        (forall|i: int| 0 <= i < fields.len() ==> (#[trigger] fields[i]).0 != name)
            ==> first_value(fields, name).len() == 0,
    decreases fields.len(),
{
    if fields.len() > 0 {
        let front = fields.drop_last();
        lemma_first_value(front, name);
        let end = fields.len() - 1;
        assert(fields[end] == fields.last());
        assert forall|i: int|
            0 <= i < fields.len() && (#[trigger] fields[i]).0 == name && (forall|j: int|
                0 <= j < i ==> (#[trigger] fields[j]).0 != name) implies first_value(fields, name)
            == fields[i].1 by {
            if i < end {
                assert(front[i] == fields[i]);
                assert(has_field(front, name));
                assert forall|j: int| 0 <= j < i implies (#[trigger] front[j]).0 != name by {
                    assert(front[j] == fields[j]);
                }
            } else {
                assert(!has_field(front, name)) by {
                    assert forall|j: int| 0 <= j < front.len() implies (
                    #[trigger] front[j]).0 != name by {
                        assert(front[j] == fields[j]);
                    }
                }
            }
        }
        if forall|i: int| 0 <= i < fields.len() ==> (#[trigger] fields[i]).0 != name {
            assert forall|j: int| 0 <= j < front.len() implies (#[trigger] front[j]).0
                != name by {
                assert(front[j] == fields[j]);
            }
            assert(fields[end].0 != name);
        }
    }
}

/// The FNV-1a hash of bytes.
pub open spec fn fnv1a(bytes: Seq<u8>) -> u64
    decreases bytes.len(),
{
    if bytes.len() == 0 {
        0xcbf2_9ce4_8422_2325
    } else {
        (fnv1a(bytes.drop_last()) ^ (bytes.last() as u64)).wrapping_mul(0x0000_0100_0000_01b3)
    }
}

/// Hashing goes on where it stopped.
pub proof fn hashing_goes_on(first: Seq<u8>, second: Seq<u8>)
    ensures
        fnv_bytes(fnv1a(first), second) == fnv1a(first + second),
        forall|byte: u8| #[trigger] fnv_step(fnv1a(first), byte) == fnv1a(first.push(byte)),
    decreases second.len(),
{
    assert forall|byte: u8| #[trigger] fnv_step(fnv1a(first), byte) == fnv1a(
        first.push(byte),
    ) by {
        assert(first.push(byte).drop_last() =~= first);
    }
    if second.len() == 0 {
        assert(first + second =~= first);
    } else {
        hashing_goes_on(first, second.drop_last());
        assert((first + second).drop_last() =~= first + second.drop_last());
        assert((first + second).last() == second.last());
    }
}

/// The bytes that tell compression cohorts apart: the service, the name and the version of the
/// scope, each with a separator behind it.
pub open spec fn cohort_bytes(service: Seq<char>, name: Seq<char>, version: Seq<char>) -> Seq<u8> {
    encode_utf8(service).push(0xff) + encode_utf8(name).push(0xff) + encode_utf8(version).push(0xff)
}

proof fn lemma_cohort(service: Seq<char>, name: Seq<char>, version: Seq<char>)
    ensures
        crate::otlp::cohort_hash(service, name, version) == fnv1a(
            cohort_bytes(service, name, version),
        ),
{
    let none = Seq::<u8>::empty();
    let a = encode_utf8(service);
    let b = encode_utf8(name);
    let c = encode_utf8(version);
    assert(fnv1a(none) == crate::hash::FNV_OFFSET);
    hashing_goes_on(none, a);
    assert(none + a =~= a);
    hashing_goes_on(a, none);
    let one = a.push(0xff);
    hashing_goes_on(one, b);
    hashing_goes_on(one + b, none);
    let two = (one + b).push(0xff);
    hashing_goes_on(two, c);
    hashing_goes_on(two + c, none);
    assert((two + c).push(0xff) =~= cohort_bytes(service, name, version));
}

/// Fields of a scope: its name and version, where there are such, and its attributes.
pub open spec fn scope_part(scope: Option<ScopeModel>) -> Pairs {
    match scope {
        None => Seq::empty(),
        Some(scope) => said("otel.scope.name"@, scope.name) + said(
            "otel.scope.version"@,
            scope.version,
        ) + named("scope."@, scope.attributes),
    }
}

/// Fields of a record: severity, trace, span and event name, where there are such, and its
/// attributes.
pub open spec fn record_part(record: LogRecordModel) -> Pairs {
    (if record.severity_number != 0 {
        seq![("otel.severity_number"@, signed_text(record.severity_number as int))]
    } else {
        Seq::empty()
    }) + said("otel.severity_text"@, record.severity_text) + said(
        "otel.trace_id"@,
        hex_text(record.trace_id),
    ) + said("otel.span_id"@, hex_text(record.span_id)) + said(
        "otel.event_name"@,
        record.event_name,
    ) + named("attr."@, record.attributes)
}

/// The attributes of a resource; a missing one has none.
pub open spec fn attributes_in(attributes: Option<Seq<AttributeModel>>) -> Seq<AttributeModel> {
    match attributes {
        Some(list) => list,
        None => Seq::empty(),
    }
}

proof fn lemma_single(
    payload: Seq<u8>,
    resource: Seq<u8>,
    scopes: Seq<u8>,
    message: Seq<u8>,
    attributes: Option<Seq<AttributeModel>>,
    scope: Option<ScopeModel>,
    record: LogRecordModel,
)
    requires
        decoded_export(payload) == Ok::<_, Seq<char>>(seq![resource]),
        decoded_resource_logs(resource) == Some((attributes, seq![scopes])),
        decoded_scope_logs(scopes) == Some((scope, seq![message])),
        decoded_log_record(message) == Some(record),
    ensures
        export_events(payload) == Ok::<_, LogDbFault>(
            seq![
                record_event(record, resource_fields_of(known_attributes(attributes)), scope),
            ],
        ),
{
    let fields = resource_fields_of(known_attributes(attributes));
    lemma_one_resource(resource);
    lemma_one_scope(scopes, fields);
    let one = seq![message];
    assert(one.drop_last() =~= Seq::<Seq<u8>>::empty());
    assert(records_events(one.drop_last(), fields, scope) =~= Seq::<EventModel>::empty());
    let event = record_event(record, fields, scope);
    assert(records_events(one, fields, scope) =~= seq![event]);
}

proof fn lemma_event_fields(
    attributes: Option<Seq<AttributeModel>>,
    scope: Option<ScopeModel>,
    record: LogRecordModel,
)
    ensures
        record_event(record, resource_fields_of(known_attributes(attributes)), scope).fields
            == named("resource."@, attributes_in(attributes)) + services(attributes_in(attributes))
            + scope_part(scope) + record_part(record),
{
    let known = attributes_in(attributes);
    assert(known_attributes(attributes) =~= known);
    lemma_named("resource."@, known);
    lemma_services(known);
    lemma_named("attr."@, record.attributes);
    if scope is Some {
        lemma_named("scope."@, (scope->0).attributes);
    }
    assert(scope_fields_of(scope) =~= scope_part(scope));
    assert(crate::otlp::record_fields_of(record) =~= record_part(record));
}

/// One record of an export becomes one event: with the later of its two times, the text of its
/// body, and, in this order, the named attributes of its resource, the service names, the
/// fields of its scope and its own fields. What is empty or zero is left out.
pub proof fn a_record_is_an_event(
    payload: Seq<u8>,
    resource: Seq<u8>,
    scopes: Seq<u8>,
    message: Seq<u8>,
    attributes: Option<Seq<AttributeModel>>,
    scope: Option<ScopeModel>,
    record: LogRecordModel,
)
    requires
        decoded_export(payload) == Ok::<_, Seq<char>>(seq![resource]),
        decoded_resource_logs(resource) == Some((attributes, seq![scopes])),
        decoded_scope_logs(scopes) == Some((scope, seq![message])),
        decoded_log_record(message) == Some(record),
    ensures
        export_events(payload) is Ok,
        ({
            let events = export_events(payload)->Ok_0;
            let event = events[0];
            &&& events.len() == 1
            &&& event.timestamp >= record.time && event.timestamp >= record.observed
            &&& event.timestamp == record.time || event.timestamp == record.observed
            &&& event.message == top_text(record.body)
            &&& event.fields == named("resource."@, attributes_in(attributes)) + services(
                attributes_in(attributes),
            ) + scope_part(scope) + record_part(record)
        }),
{
    lemma_single(payload, resource, scopes, message, attributes, scope, record);
    lemma_event_fields(attributes, scope, record);
}

/// The cohort of an event is the hash of the first service name of its resource and of the
/// name and version of its scope; what is missing counts as empty.
pub proof fn events_have_the_cohort_of_their_scope(
    payload: Seq<u8>,
    resource: Seq<u8>,
    scopes: Seq<u8>,
    message: Seq<u8>,
    attributes: Option<Seq<AttributeModel>>,
    scope: Option<ScopeModel>,
    record: LogRecordModel,
)
    requires
        decoded_export(payload) == Ok::<_, Seq<char>>(seq![resource]),
        decoded_resource_logs(resource) == Some((attributes, seq![scopes])),
        decoded_scope_logs(scopes) == Some((scope, seq![message])),
        decoded_log_record(message) == Some(record),
    ensures
        export_events(payload) is Ok,
        ({
            let found = services(attributes_in(attributes));
            let service = if found.len() > 0 {
                found[0].1
            } else {
                Seq::empty()
            };
            let name = match scope {
                Some(scope) => scope.name,
                None => Seq::empty(),
            };
            let version = match scope {
                Some(scope) => scope.version,
                None => Seq::empty(),
            };
            export_events(payload)->Ok_0[0].cohort == fnv1a(cohort_bytes(service, name, version))
        }),
{
    let known = attributes_in(attributes);
    lemma_single(payload, resource, scopes, message, attributes, scope, record);
    assert(known_attributes(attributes) =~= known);
    lemma_service(known);
    let service = first_value(resource_fields_of(known), "service.name"@);
    let name = match scope {
        Some(scope) => scope.name,
        None => Seq::empty(),
    };
    let version = match scope {
        Some(scope) => scope.version,
        None => Seq::empty(),
    };
    lemma_cohort(service, name, version);
    if services(known).len() == 0 {
        assert(service =~= Seq::<char>::empty());
    }
}

proof fn lemma_service(known: Seq<AttributeModel>)
    ensures
        ({
            let service = first_value(resource_fields_of(known), "service.name"@);
            &&& services(known).len() > 0 ==> service == services(known)[0].1
            &&& services(known).len() == 0 ==> service.len() == 0
        }),
{
    let wanted = "service.name"@;
    let front = named("resource."@, known);
    let behind = services(known);
    let fields = resource_fields_of(known);
    lemma_named("resource."@, known);
    lemma_services(known);
    lemma_first_value(fields, wanted);
    assert(fields == front + behind);
    assert forall|i: int| 0 <= i < front.len() implies (#[trigger] front[i]).0 != wanted by {
        lemma_prefixed(known, i);
    }
    if behind.len() > 0 {
        let at = front.len() as int;
        assert(fields[at] == behind[0]);
        assert(behind[0].0 == wanted);
        assert forall|j: int| 0 <= j < at implies (#[trigger] fields[j]).0 != wanted by {
            assert(fields[j] == front[j]);
        }
        assert(first_value(fields, wanted) == fields[at].1);
    } else {
        assert forall|i: int| 0 <= i < fields.len() implies (#[trigger] fields[i]).0
            != wanted by {
            assert(fields[i] == front[i]);
        }
    }
}

/// A name with the prefix of resources is no service name.
proof fn lemma_prefixed(known: Seq<AttributeModel>, i: int)
    requires
        0 <= i < named("resource."@, known).len(),
    ensures
        named("resource."@, known)[i].0 != "service.name"@,
{
    let kept = known.filter(|attribute: AttributeModel| attribute.key.len() > 0);
    reveal_strlit("resource.");
    reveal_strlit("service.name");
    let key = "resource."@ + kept[i].key;
    assert(key[0] == 'r');
    assert("service.name"@[0] == 's');
}

/// Number of records of scopes that decode.
pub open spec fn scope_records(scopes: Seq<Seq<u8>>) -> nat
    decreases scopes.len(),
{
    if scopes.len() == 0 {
        0
    } else {
        scope_records(scopes.drop_last()) + match decoded_scope_logs(scopes.last()) {
            Some((_, records)) => records.filter(
                |message: Seq<u8>| decoded_log_record(message) is Some,
            ).len(),
            None => 0,
        }
    }
}

/// Number of records of resources that decode.
pub open spec fn resource_records(resources: Seq<Seq<u8>>) -> nat
    decreases resources.len(),
{
    if resources.len() == 0 {
        0
    } else {
        resource_records(resources.drop_last()) + match decoded_resource_logs(resources.last()) {
            Some((_, scopes)) => scope_records(scopes),
            None => 0,
        }
    }
}

proof fn lemma_records_count(records: Seq<Seq<u8>>, fields: Pairs, scope: Option<ScopeModel>)
    ensures
        records_events(records, fields, scope).len() == records.filter(
            |message: Seq<u8>| decoded_log_record(message) is Some,
        ).len(),
    decreases records.len(),
{
    reveal(Seq::filter);
    if records.len() > 0 {
        lemma_records_count(records.drop_last(), fields, scope);
    }
}

proof fn lemma_scopes_count(scopes: Seq<Seq<u8>>, fields: Pairs)
    ensures
        scopes_events(scopes, fields).len() == scope_records(scopes),
    decreases scopes.len(),
{
    if scopes.len() > 0 {
        lemma_scopes_count(scopes.drop_last(), fields);
        if let Some((scope, records)) = decoded_scope_logs(scopes.last()) {
            lemma_records_count(records, fields, scope);
        }
    }
}

/// An export has as many events as all scopes of all its resources have records.
pub proof fn no_record_is_lost(payload: Seq<u8>)
    ensures
        decoded_export(payload) matches Ok(resources) ==> export_events(payload)->Ok_0.len()
            == resource_records(resources),
{
    if decoded_export(payload) is Ok {
        lemma_resources_count(decoded_export(payload)->Ok_0);
    }
}

proof fn lemma_resources_count(resources: Seq<Seq<u8>>)
    ensures
        resources_events(resources).len() == resource_records(resources),
    decreases resources.len(),
{
    if resources.len() > 0 {
        lemma_resources_count(resources.drop_last());
        if let Some((attributes, scopes)) = decoded_resource_logs(resources.last()) {
            lemma_scopes_count(scopes, resource_fields_of(known_attributes(attributes)));
        }
    }
}

/// Decimal text reads back as its number and has no leading zero.
pub proof fn decimal_text_reads_back(number: nat)
    ensures
        is_decimal(decimal_text(number)),
        decimal(decimal_text(number)) == number,
        number > 0 ==> decimal_text(number)[0] != '0',
        number == 0 ==> decimal_text(number) == seq!['0'],
    decreases number,
{
    let text = decimal_text(number);
    let digit = ((number % 10) + 48) as char;
    assert('0' <= digit <= '9');
    if number < 10 {
        assert(text.drop_last() =~= Seq::<char>::empty());
        assert(decimal(text.drop_last()) == 0);
        assert(text.last() == digit);
    } else {
        let front = decimal_text(number / 10);
        decimal_text_reads_back(number / 10);
        assert(text.drop_last() =~= front);
        assert(text.last() == digit);
        assert forall|i: int| 0 <= i < text.len() implies '0' <= #[trigger] text[i] <= '9' by {
            if i < front.len() {
                assert(text[i] == front[i]);
            }
        }
        assert(text[0] == front[0]);
    }
}

/// The value of a hexadecimal digit.
pub open spec fn nibble(digit: char) -> int {
    if '0' <= digit <= '9' {
        digit as int - '0' as int
    } else {
        digit as int - 'a' as int + 10
    }
}

/// Hexadecimal text has two lowercase digits for each byte, the higher first.
pub proof fn hex_text_reads_back(bytes: Seq<u8>)
    ensures
        hex_text(bytes).len() == 2 * bytes.len(),
        forall|i: int|
            0 <= i < hex_text(bytes).len() ==> '0' <= #[trigger] hex_text(bytes)[i] <= '9' || 'a'
                <= hex_text(bytes)[i] <= 'f',
        forall|i: int|
            0 <= i < bytes.len() ==> #[trigger] bytes[i] == 16 * nibble(hex_text(bytes)[2 * i])
                + nibble(hex_text(bytes)[2 * i + 1]),
    decreases bytes.len(),
{
    if bytes.len() > 0 {
        let front = bytes.drop_last();
        let text = hex_text(bytes);
        let early = hex_text(front);
        hex_text_reads_back(front);
        let high = hex_digit(bytes.last() as int / 16);
        let low = hex_digit(bytes.last() as int % 16);
        assert(text =~= early.push(high).push(low));
        assert forall|i: int| 0 <= i < text.len() implies '0' <= #[trigger] text[i] <= '9' || 'a'
            <= text[i] <= 'f' by {
            if i < early.len() {
                assert(text[i] == early[i]);
            }
        }
        assert forall|i: int| 0 <= i < bytes.len() implies #[trigger] bytes[i] == 16 * nibble(
            text[2 * i],
        ) + nibble(text[2 * i + 1]) by {
            if i < front.len() {
                assert(front[i] == bytes[i]);
                assert(text[2 * i] == early[2 * i] && text[2 * i + 1] == early[2 * i + 1]);
            }
        }
    }
}

/// A value is shown by what it holds: a text as itself, a flag as its word, an integer as the
/// number that its text writes, bytes in hexadecimal, and no value as `null`.
pub proof fn values_are_shown(message: Seq<u8>)
    ensures
        top_text(None) == "null"@,
        decoded_any_value(message) is None ==> top_text(Some(message)) == "null"@,
        decoded_any_value(message) matches Some(node) ==> {
            &&& node is Empty ==> top_text(Some(message)) == "null"@
            &&& node matches NodeModel::Text(text) ==> top_text(Some(message)) == text
            &&& node matches NodeModel::Double(text) ==> top_text(Some(message)) == text
            &&& node == NodeModel::Flag(true) ==> top_text(Some(message)) == "true"@
            &&& node == NodeModel::Flag(false) ==> top_text(Some(message)) == "false"@
            &&& node matches NodeModel::Integer(number) ==> writes(
                top_text(Some(message)),
                number as int,
            )
            &&& node matches NodeModel::Bytes(bytes) ==> top_text(Some(message)) == hex_text(bytes)
            &&& node is Reserved ==> top_text(Some(message)).len() == 0
        },
{
    if let Some(NodeModel::Integer(number)) = decoded_any_value(message) {
        signed_text_reads_back(number as int);
    }
}

/// The text of a number writes that number.
pub proof fn signed_text_reads_back(number: int)
    ensures
        writes(signed_text(number), number),
{
    if number < 0 {
        let digits = decimal_text((-number) as nat);
        decimal_text_reads_back((-number) as nat);
        assert(signed_text(number).drop_first() =~= digits);
    } else {
        decimal_text_reads_back(number as nat);
    }
}

/// The texts of nested values stand between brackets, with commas between them.
pub proof fn nested_values_are_shown(
    list: Seq<Seq<u8>>,
    last: Seq<u8>,
    fields: Seq<AttributeModel>,
    field: AttributeModel,
    depth: nat,
)
    ensures
        items_text(Seq::empty(), depth).len() == 0,
        items_text(seq![last], depth) == value_text(Some(last), depth),
        list.len() > 0 ==> items_text(list.push(last), depth) == items_text(list, depth) + ","@
            + value_text(Some(last), depth),
        fields_text(Seq::empty(), depth).len() == 0,
        fields_text(seq![field], depth) == field.key + "="@ + value_text(field.value, depth),
        fields.len() > 0 ==> fields_text(fields.push(field), depth) == fields_text(fields, depth)
            + ","@ + (field.key + "="@ + value_text(field.value, depth)),
        forall|message: Seq<u8>, items: Seq<Seq<u8>>|
            #[trigger] decoded_any_value(message) == Some(NodeModel::Items(items)) && depth > 0
                ==> value_text(Some(message), depth) == "["@ + #[trigger] items_text(
                items,
                (depth - 1) as nat,
            ) + "]"@,
        forall|message: Seq<u8>, pairs: Seq<AttributeModel>|
            #[trigger] decoded_any_value(message) == Some(NodeModel::Fields(pairs)) && depth > 0
                ==> value_text(Some(message), depth) == "{"@ + #[trigger] fields_text(
                pairs,
                (depth - 1) as nat,
            ) + "}"@,
        MAX_VALUE_DEPTH > 0,
{
    assert(list.push(last).drop_last() =~= list);
    assert(fields.push(field).drop_last() =~= fields);
    assert(items_text(seq![last], depth) =~= value_text(Some(last), depth));
    assert(seq![field].last() == field);
    assert(fields_text(seq![field], depth) == crate::otlp::field_text(field, depth));
}

/// Decoded events get contiguous offsets in their order and keep what they hold; they are
/// refused exactly where the offsets run out.
pub proof fn events_get_contiguous_offsets(
    events: Seq<EventModel>,
    shard: ShardId,
    partition: TopicPartition,
    first: LogicalOffset,
)
    ensures
        match durable_events(events, shard, partition, first) {
            Ok(records) => {
                &&& records.len() == events.len()
                &&& events.len() > 0 ==> first.0 + events.len() - 1 <= u64::MAX
                &&& forall|i: int|
                    0 <= i < records.len() ==> {
                        let record = #[trigger] records[i];
                        &&& record.reference.offset.0 == first.0 + i
                        &&& record.reference.topic_partition == partition
                        &&& record.shard == shard
                        &&& record.timestamp == events[i].timestamp
                        &&& record.message == events[i].message
                        &&& record.fields == events[i].fields
                        &&& record.cohort.0 == events[i].cohort
                    }
            },
            Err(_) => events.len() > 0 && first.0 + events.len() - 1 > u64::MAX,
        },
{
}

} // verus!
