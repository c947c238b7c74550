use vstd::prelude::*;
use crate::metrics::Aggregate;

verus! {

/// The per-station summaries of a `Metrics`, kept in a `hashbrown::HashMap`
/// keyed by the station's bytes. Its contents are `station_table_entries`.
#[verifier::external_body]
pub struct StationTable<'a> {
    inner: hashbrown::HashMap<&'a [u8], Aggregate>,
}

/// What a station table holds: each station's bytes mapped to its summary.
pub uninterp spec fn station_table_entries(table: StationTable) -> Map<Seq<u8>, Aggregate>;

/// `hashbrown::HashMap::with_capacity`: a new map holds nothing. The capacity
/// is bounded here because the map aborts the process when it cannot
/// allocate room for it.
#[verifier::external_body]
pub(crate) fn table_with_capacity<'a>(capacity: usize) -> (fresh: StationTable<'a>)
    requires
        capacity <= 1_048_576,
    ensures
        station_table_entries(fresh).dom() == Set::<Seq<u8>>::empty(),
{
    StationTable { inner: hashbrown::HashMap::with_capacity(capacity) }
}

/// `hashbrown::HashMap::get_mut`: where the station is present, a reference
/// to its summary, through which the summary in the map is replaced by what
/// the caller leaves there; where it is absent, `None` and the map unchanged.
/// Keys compare by their bytes (`Eq` on `&[u8]`).
#[verifier::external_body]
pub(crate) fn table_get_mut<'a, 'b>(table: &'b mut StationTable<'a>, station: &[u8]) -> (r: Option<
    &'b mut Aggregate,
>)
    ensures
        match r {
            Some(summary) => {
                &&& station_table_entries(*old(table)).contains_key(station@)
                &&& *summary == station_table_entries(*old(table))[station@]
                &&& station_table_entries(*final(table)) == station_table_entries(
                    *old(table),
                ).insert(station@, *final(summary))
            },
            None => {
                &&& !station_table_entries(*old(table)).contains_key(station@)
                &&& station_table_entries(*final(table)) == station_table_entries(*old(table))
            },
        },
{
    table.inner.get_mut(station)
}

/// `hashbrown::HashMap::insert`: afterwards the station maps to `summary`;
/// the summary it had before, if any, is returned.
#[verifier::external_body]
pub(crate) fn table_insert<'a>(table: &mut StationTable<'a>, station: &'a [u8], summary: Aggregate) -> (r:
    Option<Aggregate>)
    ensures
        station_table_entries(*final(table)) == station_table_entries(*old(table)).insert(
            station@,
            summary,
        ),
        r == (if station_table_entries(*old(table)).contains_key(station@) {
            Some(station_table_entries(*old(table))[station@])
        } else {
            None
        }),
{
    table.inner.insert(station, summary)
}

/// `hashbrown::HashMap::into_iter`, collected: every entry of the map once,
/// as (station, summary) pairs, in an order that the map's hashing decides.
#[verifier::external_body]
pub(crate) fn table_into_entries<'a>(table: StationTable<'a>) -> (entries: Vec<(&'a [u8], Aggregate)>)
    ensures
        forall|i: int|
            0 <= i < entries@.len() ==> {
                &&& station_table_entries(table).contains_key(#[trigger] entries@[i].0@)
                &&& station_table_entries(table)[entries@[i].0@] == entries@[i].1
            },
        forall|i: int, j: int|
            0 <= i < j < entries@.len() ==> #[trigger] entries@[i].0@ != #[trigger] entries@[j].0@,
        forall|k: Seq<u8>|
            #[trigger] station_table_entries(table).contains_key(k) ==> exists|i: int|
                0 <= i < entries@.len() && #[trigger] entries@[i].0@ == k,
{
    table.inner.into_iter().collect()
}

} // verus!
