//! Records of the survey.

use crate::error::LoadError;
use crate::planar::PlanarPoint;
use crate::text::{lemma_bytes_le_total, lemma_bytes_le_transitive, text_le, text_no_later};
use vstd::prelude::*;
use vstd::seq_lib::lemma_multiset_commutative;
use vstd::utf8::encode_utf8;

verus! {

/// How many units of height make a metre: heights are held in units of
/// 1e-7 metre.
pub const HEIGHT_UNITS_PER_METRE: i64 = 10_000_000;

/// Survey heights are taken in thousandths of a foot.
pub const MILLIFEET_PER_FOOT: i64 = 1_000;

/// How many units of height make a thousandth of a foot. A foot is 0.3048
/// metre, so the conversion is exact.
pub const HEIGHT_UNITS_PER_MILLIFOOT: i64 = 3_048;

/// A peak as the survey records it. It is not changed once loaded.
#[derive(Clone, Debug, PartialEq, Eq)]
pub struct SurveyPeak {
    /// The peak's name; several records may bear the same.
    pub name: String,
    /// Latitude, in units of 1e-7 degree.
    pub lat: i32,
    /// Longitude, in units of 1e-7 degree.
    pub lon: i32,
    /// Height above sea level, in units of 1e-7 metre.
    pub ele: i64,
    /// Where the projection puts the record on the grid.
    pub position: PlanarPoint,
}

/// What a [`SurveyPeak`] says.
pub struct PeakView {
    pub name: Seq<char>,
    pub lat: i32,
    pub lon: i32,
    pub ele: i64,
    pub position: PlanarPoint,
}

impl View for SurveyPeak {
    type V = PeakView;

    open spec fn view(&self) -> PeakView {
        PeakView {
            name: self.name@,
            lat: self.lat,
            lon: self.lon,
            ele: self.ele,
            position: self.position,
        }
    }
}

/// What a list of survey records says, record by record.
pub open spec fn peak_views(peaks: Seq<SurveyPeak>) -> Seq<PeakView> {
    peaks.map_values(|p: SurveyPeak| p@)
}

/// A height given in thousandths of a foot, in units of 1e-7 metre.
pub open spec fn height_from_feet(milli_feet: int) -> int {
    milli_feet * HEIGHT_UNITS_PER_MILLIFOOT
}

/// A height in whole metres as a tag states it: the nearest whole metre,
/// with its sign; a height just between two whole metres goes to the one
/// farther from zero.
pub open spec fn rounded_metres(ele: int) -> int {
    if ele < 0 {
        -((-ele + HEIGHT_UNITS_PER_METRE / 2) / (HEIGHT_UNITS_PER_METRE as int))
    } else {
        (ele + HEIGHT_UNITS_PER_METRE / 2) / (HEIGHT_UNITS_PER_METRE as int)
    }
}

/// The height in whole metres that a tag states for a height in units of
/// 1e-7 metre.
pub fn round_to_metres(ele: i64) -> (m: i64)
    ensures
        m == rounded_metres(ele as int),
{
    let half: i128 = (HEIGHT_UNITS_PER_METRE / 2) as i128;
    if ele < 0 {
        let whole: i128 = (-(ele as i128) + half) / (HEIGHT_UNITS_PER_METRE as i128);
        (-whole) as i64
    } else {
        let whole: i128 = (ele as i128 + half) / (HEIGHT_UNITS_PER_METRE as i128);
        whole as i64
    }
}

/// `record` put into a list that is ordered by name: before the first
/// record whose name comes no earlier than its own.
pub open spec fn insert_by_name(record: PeakView, ordered: Seq<PeakView>) -> Seq<PeakView>
    decreases ordered.len(),
{
    if ordered.len() == 0 || text_le(record.name, ordered[0].name) {
        seq![record] + ordered
    } else {
        seq![ordered[0]] + insert_by_name(record, ordered.drop_first())
    }
}

/// The records ordered by name, records of the same name in the order in
/// which they came.
pub open spec fn sorted_by_name(records: Seq<PeakView>) -> Seq<PeakView>
    decreases records.len(),
{
    if records.len() == 0 {
        records
    } else {
        insert_by_name(records[0], sorted_by_name(records.drop_first()))
    }
}

/// Whether the names never go backwards along the list.
pub open spec fn ordered_by_name(records: Seq<PeakView>) -> bool {
    forall|i: int, j: int|
        0 <= i < j < records.len() ==> text_le(
            (#[trigger] records[i]).name,
            (#[trigger] records[j]).name,
        )
}

/// The records that bear the given name, in their order.
pub open spec fn named(records: Seq<PeakView>, name: Seq<char>) -> Seq<PeakView> {
    records.filter(|p: PeakView| p.name == name)
}

/// Where `place` is the first place of `ordered` whose record's name comes no
/// earlier than that of `record`, putting `record` in by name puts it there.
pub proof fn lemma_insert_by_name_at(record: PeakView, ordered: Seq<PeakView>, place: int)
    requires
        0 <= place <= ordered.len(),
        forall|j: int| 0 <= j < place ==> !text_le(record.name, (#[trigger] ordered[j]).name),
        place < ordered.len() ==> text_le(record.name, ordered[place].name),
    ensures
        insert_by_name(record, ordered) == ordered.insert(place, record),
    decreases place,
{
    if place == 0 {
        assert(seq![record] + ordered =~= ordered.insert(0, record));
    } else {
        let rest = ordered.drop_first();
        assert(!text_le(record.name, ordered[0].name));
        assert forall|j: int| 0 <= j < place - 1 implies !text_le(
            record.name,
            (#[trigger] rest[j]).name,
        ) by {
            assert(rest[j] == ordered[j + 1]);
        }
        lemma_insert_by_name_at(record, rest, place - 1);
        assert(seq![ordered[0]] + rest.insert(place - 1, record) =~= ordered.insert(place, record));
    }
}

/// The place at which a record is put into a list by name.
pub proof fn lemma_insert_by_name_place(record: PeakView, ordered: Seq<PeakView>) -> (place: int)
    ensures
        0 <= place <= ordered.len(),
        forall|j: int| 0 <= j < place ==> !text_le(record.name, (#[trigger] ordered[j]).name),
        place < ordered.len() ==> text_le(record.name, ordered[place].name),
        insert_by_name(record, ordered) == ordered.insert(place, record),
    decreases ordered.len(),
{
    let place = if ordered.len() == 0 || text_le(record.name, ordered[0].name) {
        0
    } else {
        let rest = ordered.drop_first();
        let within = lemma_insert_by_name_place(record, rest);
        assert forall|j: int| 0 <= j < within + 1 implies !text_le(
            record.name,
            (#[trigger] ordered[j]).name,
        ) by {
            if j > 0 {
                assert(ordered[j] == rest[j - 1]);
            }
        }
        within + 1
    };
    lemma_insert_by_name_at(record, ordered, place);
    place
}

/// Putting a record into an ordered list by name leaves the list ordered.
pub proof fn lemma_insert_keeps_order(record: PeakView, ordered: Seq<PeakView>)
    requires
        ordered_by_name(ordered),
    ensures
        ordered_by_name(insert_by_name(record, ordered)),
{
    let place = lemma_insert_by_name_place(record, ordered);
    let out = ordered.insert(place, record);
    assert forall|i: int, j: int| 0 <= i < j < out.len() implies text_le(
        (#[trigger] out[i]).name,
        (#[trigger] out[j]).name,
    ) by {
        if j == place {
            assert(out[i] == ordered[i]);
            lemma_bytes_le_total(encode_utf8(record.name), encode_utf8(ordered[i].name));
        } else if i == place {
            assert(out[j] == ordered[j - 1]);
            if j - 1 > place {
                lemma_bytes_le_transitive(
                    encode_utf8(record.name),
                    encode_utf8(ordered[place].name),
                    encode_utf8(ordered[j - 1].name),
                );
            }
        } else {
            let a = if i < place {
                i
            } else {
                i - 1
            };
            let b = if j < place {
                j
            } else {
                j - 1
            };
            assert(out[i] == ordered[a] && out[j] == ordered[b]);
        }
    }
}

/// Sorting by name gives a list along which the names never go backwards.
pub proof fn lemma_sorted_is_ordered(records: Seq<PeakView>)
    ensures
        ordered_by_name(sorted_by_name(records)),
    decreases records.len(),
{
    if records.len() > 0 {
        lemma_sorted_is_ordered(records.drop_first());
        lemma_insert_keeps_order(records[0], sorted_by_name(records.drop_first()));
    }
}

/// Sorting by name loses no record and adds none: each record occurs as
/// often after as before.
pub proof fn lemma_sorted_is_permutation(records: Seq<PeakView>)
    ensures
        sorted_by_name(records).to_multiset() == records.to_multiset(),
        sorted_by_name(records).len() == records.len(),
    decreases records.len(),
{
    if records.len() > 0 {
        broadcast use vstd::multiset::group_multiset_axioms;

        let first = records[0];
        let rest = records.drop_first();
        let sorted_rest = sorted_by_name(rest);
        lemma_sorted_is_permutation(rest);
        let place = lemma_insert_by_name_place(first, sorted_rest);
        let before = sorted_rest.take(place);
        let after = sorted_rest.skip(place);
        assert(sorted_rest.insert(place, first) =~= before + seq![first] + after);
        assert(sorted_rest =~= before + after);
        assert(records =~= seq![first] + rest);
        lemma_multiset_commutative(before + seq![first], after);
        lemma_multiset_commutative(before, seq![first]);
        lemma_multiset_commutative(before, after);
        lemma_multiset_commutative(seq![first], rest);
        assert(sorted_rest.insert(place, first).to_multiset() =~= records.to_multiset());
    }
}

/// Sorting by name is stable: the records of any one name stand after it in
/// the order in which they stood before.
pub proof fn lemma_sorted_is_stable(records: Seq<PeakView>, name: Seq<char>)
    ensures
        named(sorted_by_name(records), name) == named(records, name),
    decreases records.len(),
{
    let bears = |p: PeakView| p.name == name;
    if records.len() > 0 {
        let first = records[0];
        let rest = records.drop_first();
        let sorted_rest = sorted_by_name(rest);
        lemma_sorted_is_stable(rest, name);
        let place = lemma_insert_by_name_place(first, sorted_rest);
        let out = sorted_rest.insert(place, first);
        let before = sorted_rest.take(place);
        let after = sorted_rest.skip(place);
        assert(out =~= before + seq![first] + after);
        assert(sorted_rest =~= before + after);
        assert(records =~= seq![first] + rest);
        Seq::filter_distributes_over_add(before + seq![first], after, bears);
        Seq::filter_distributes_over_add(before, seq![first], bears);
        Seq::filter_distributes_over_add(before, after, bears);
        Seq::filter_distributes_over_add(seq![first], rest, bears);
        if first.name == name {
            assert(before.filter(bears) =~= Seq::<PeakView>::empty()) by {
                assert forall|j: int| 0 <= j < before.len() implies !bears(
                    #[trigger] before[j],
                ) by {
                    assert(before[j] == sorted_rest[j]);
                    lemma_bytes_le_total(encode_utf8(first.name), encode_utf8(first.name));
                }
                before.lemma_all_neg_filter_empty(bears);
            }
        } else {
            assert(seq![first].filter(bears) =~= Seq::<PeakView>::empty()) by {
                seq![first].lemma_all_neg_filter_empty(bears);
            }
        }
        assert(out.filter(bears) =~= records.filter(bears));
    }
}

/// The place at which `record` goes into a list that is ordered by name: the
/// first whose record's name comes no earlier than its own, found by
/// halving.
fn place_by_name(record: &SurveyPeak, ordered: &Vec<SurveyPeak>) -> (place: usize)
    requires
        ordered_by_name(peak_views(ordered@)),
    ensures
        place <= ordered@.len(),
        insert_by_name(record@, peak_views(ordered@)) == peak_views(ordered@).insert(
            place as int,
            record@,
        ),
{
    let ghost all = peak_views(ordered@);
    let mut low: usize = 0;
    let mut high: usize = ordered.len();
    while low < high
        invariant
            low <= high <= ordered@.len(),
            all == peak_views(ordered@),
            ordered_by_name(all),
            forall|j: int| 0 <= j < low ==> !text_le(record@.name, (#[trigger] all[j]).name),
            forall|j: int| high <= j < all.len() ==> text_le(record@.name, (#[trigger] all[j]).name),
        decreases high - low,
    {
        let middle = low + (high - low) / 2;
        if text_no_later(record.name.as_str(), ordered[middle].name.as_str()) {
            assert forall|j: int| middle <= j < all.len() implies text_le(
                record@.name,
                (#[trigger] all[j]).name,
            ) by {
                if j > middle {
                    lemma_bytes_le_transitive(
                        encode_utf8(record@.name),
                        encode_utf8(all[middle as int].name),
                        encode_utf8(all[j].name),
                    );
                }
            }
            high = middle;
        } else {
            assert forall|j: int| 0 <= j < middle + 1 implies !text_le(
                record@.name,
                (#[trigger] all[j]).name,
            ) by {
                if j < middle && text_le(record@.name, all[j].name) {
                    lemma_bytes_le_transitive(
                        encode_utf8(record@.name),
                        encode_utf8(all[j].name),
                        encode_utf8(all[middle as int].name),
                    );
                }
            }
            low = middle + 1;
        }
    }
    proof {
        lemma_insert_by_name_at(record@, all, low as int);
    }
    low
}

/// Orders the records by name, records of the same name in the order in
/// which they came.
pub fn sort_by_name(records: Vec<SurveyPeak>) -> (sorted: Vec<SurveyPeak>)
    ensures
        peak_views(sorted@) == sorted_by_name(peak_views(records@)),
{
    let ghost all = peak_views(records@);
    let mut rest = records;
    let mut sorted: Vec<SurveyPeak> = Vec::with_capacity(rest.len());
    assert(all.skip(all.len() as int) =~= Seq::<PeakView>::empty());
    assert(peak_views(sorted@) =~= Seq::<PeakView>::empty());
    while rest.len() > 0
        invariant
            rest@.len() <= all.len(),
            peak_views(rest@) == all.take(rest@.len() as int),
            peak_views(sorted@) == sorted_by_name(all.skip(rest@.len() as int)),
        decreases rest@.len(),
    {
        let ghost left = rest@.len() as int;
        let ghost earlier = peak_views(sorted@);
        let ghost held = rest@;
        let record = rest.pop().unwrap();
        proof {
            assert(peak_views(held)[left - 1] == all.take(left)[left - 1]);
            lemma_sorted_is_ordered(all.skip(left));
            assert(all.skip(left - 1).drop_first() =~= all.skip(left));
            assert(all.skip(left - 1)[0] == record@);
        }
        let place = place_by_name(&record, &sorted);
        sorted.insert(place, record);
        assert(peak_views(sorted@) =~= earlier.insert(place as int, record@));
        assert(peak_views(rest@) =~= all.take(left - 1));
    }
    assert(all.skip(0) =~= all);
    sorted
}

impl SurveyPeak {
    /// Takes a record as the survey file gives it, with the height in
    /// thousandths of a foot, and turns the height into metres at once. The
    /// record is refused where the height in units of 1e-7 metre does not
    /// fit 64 bits.
    pub fn from_feet(
        name: String,
        lat: i32,
        lon: i32,
        milli_feet: i64,
        position: PlanarPoint,
    ) -> (r: Result<SurveyPeak, LoadError>)
        ensures
            match r {
                Ok(p) => p@ == (PeakView {
                    name: name@,
                    lat,
                    lon,
                    ele: height_from_feet(milli_feet as int) as i64,
                    position,
                }) && i64::MIN <= height_from_feet(milli_feet as int) <= i64::MAX,
                Err(e) => e == LoadError::ElevationOutOfRange && !(i64::MIN <= height_from_feet(
                    milli_feet as int,
                ) <= i64::MAX),
            },
    {
        let scaled: i128 = milli_feet as i128 * HEIGHT_UNITS_PER_MILLIFOOT as i128;
        if scaled < i64::MIN as i128 || scaled > i64::MAX as i128 {
            Err(LoadError::ElevationOutOfRange)
        } else {
            Ok(SurveyPeak { name, lat, lon, ele: scaled as i64, position })
        }
    }

    /// The height in whole metres that a tag states for this peak.
    pub fn rounded_metres(&self) -> (m: i64)
        ensures
            m == rounded_metres(self@.ele as int),
    {
        round_to_metres(self.ele)
    }
}

} // verus!
