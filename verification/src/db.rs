//! The deduplicating store: normalized sample records keyed by the
//! five-field natural key, insert-if-absent with a keep-first policy, and
//! batch insertion that tolerates per-row conversion errors while counting
//! every outcome.

use vstd::prelude::*;
use vstd::std_specs::iter::IteratorSpec;

use crate::csv_data::{CsvRowView, ParseError, SpecParseError, WasteWaterCsvRow};
use crate::date::Date;
use crate::decimal::Decimal;
use crate::useful::{try_unix_timestamp, ClockError};

verus! {

/// A normalized record of a wastewater sample. The natural key of a record
/// is the combination of `sample_collection_date`, `site_name`, `county`,
/// `pcr_pathogen_target` and `pcr_gene_target`.
#[derive(Debug, Clone)]
pub struct WasteWaterSample {
    /// Date the sample was collected, not when the data was polled.
    pub sample_collection_date: Date,
    /// Name of the site where the sample was collected.
    pub site_name: String,
    /// County where the sample was collected.
    pub county: String,
    /// Pathogen target of the PCR test.
    pub pcr_pathogen_target: String,
    /// Gene target of the PCR test.
    pub pcr_gene_target: String,
    /// Normalized pathogen concentration (gene copies/person/day). Sites
    /// normalize differently, so values are not comparable across sites.
    pub normalized_pathogen_concentration: Decimal,
    /// Instant the dataset was last updated, in microseconds since the
    /// Unix epoch.
    pub date_updated: i64,
    /// Unix timestamp (seconds) of when this record was polled and added.
    pub poll_timestamp: u64,
}

/// `WasteWaterSample` with its strings as character strings.
pub struct SampleView {
    pub sample_collection_date: Date,
    pub site_name: Seq<char>,
    pub county: Seq<char>,
    pub pcr_pathogen_target: Seq<char>,
    pub pcr_gene_target: Seq<char>,
    pub normalized_pathogen_concentration: Decimal,
    pub date_updated: int,
    pub poll_timestamp: u64,
}

/// The five fields that identify one real-world measurement.
pub struct NaturalKey {
    pub sample_collection_date: Date,
    pub site_name: Seq<char>,
    pub county: Seq<char>,
    pub pcr_pathogen_target: Seq<char>,
    pub pcr_gene_target: Seq<char>,
}

impl SampleView {
    /// The natural key of this record.
    pub open spec fn key(self) -> NaturalKey {
        NaturalKey {
            sample_collection_date: self.sample_collection_date,
            site_name: self.site_name,
            county: self.county,
            pcr_pathogen_target: self.pcr_pathogen_target,
            pcr_gene_target: self.pcr_gene_target,
        }
    }

    /// A record the store accepts: a real date and a concentration small
    /// enough for exact difference arithmetic.
    pub open spec fn wf(self) -> bool {
        self.sample_collection_date.wf() && self.normalized_pathogen_concentration.compact()
    }
}

impl View for WasteWaterSample {
    type V = SampleView;

    open spec fn view(&self) -> SampleView {
        SampleView {
            sample_collection_date: self.sample_collection_date,
            site_name: self.site_name@,
            county: self.county@,
            pcr_pathogen_target: self.pcr_pathogen_target@,
            pcr_gene_target: self.pcr_gene_target@,
            normalized_pathogen_concentration: self.normalized_pathogen_concentration,
            date_updated: self.date_updated as int,
            poll_timestamp: self.poll_timestamp,
        }
    }
}

impl DeepView for WasteWaterSample {
    type V = SampleView;

    open spec fn deep_view(&self) -> SampleView {
        self.view()
    }
}

impl WasteWaterSample {
    /// The record that normalizing `row` at poll time `poll` yields: the
    /// row's fields unchanged, plus the poll timestamp.
    pub open spec fn spec_from_row(row: CsvRowView, poll: u64) -> SampleView {
        SampleView {
            sample_collection_date: row.sample_collection_date,
            site_name: row.site_name,
            county: row.county,
            pcr_pathogen_target: row.pcr_pathogen_target,
            pcr_gene_target: row.pcr_gene_target,
            normalized_pathogen_concentration: row.normalized_pathogen_concentration,
            date_updated: row.date_updated,
            poll_timestamp: poll,
        }
    }

    /// Normalizes a decoded row with the given poll timestamp: a pure
    /// field-for-field transform.
    pub fn from_row(row: WasteWaterCsvRow, poll_timestamp: u64) -> (s: Self)
        ensures
            s@ == Self::spec_from_row(row@, poll_timestamp),
    {
        WasteWaterSample {
            sample_collection_date: row.sample_collection_date,
            site_name: row.site_name,
            county: row.county,
            pcr_pathogen_target: row.pcr_pathogen_target,
            pcr_gene_target: row.pcr_gene_target,
            normalized_pathogen_concentration: row.normalized_pathogen_concentration,
            date_updated: row.date_updated,
            poll_timestamp,
        }
    }

    /// Normalizes a decoded row, reading the host clock for the poll
    /// timestamp; fails only when the clock reads before the Unix epoch.
    pub fn try_from_row(row: WasteWaterCsvRow) -> (r: Result<Self, ClockError>)
        ensures
            match r {
                Ok(s) => s@ == Self::spec_from_row(row@, s.poll_timestamp),
                Err(e) => e == ClockError::BeforeEpoch,
            },
    {
        match try_unix_timestamp() {
            Ok(poll) => Ok(Self::from_row(row, poll)),
            Err(_) => Err(ClockError::BeforeEpoch),
        }
    }
}

/// Whether some record in `tbl` has natural key `k`.
pub open spec fn contains_key(tbl: Seq<SampleView>, k: NaturalKey) -> bool {
    exists|i: int| 0 <= i < tbl.len() && (#[trigger] tbl[i]).key() == k
}

/// What inserting `s` leaves in the store: unchanged when its key is
/// already present (the first-seen record is kept), else `s` appended.
pub open spec fn spec_insert(tbl: Seq<SampleView>, s: SampleView) -> Seq<SampleView> {
    if contains_key(tbl, s.key()) {
        tbl
    } else {
        tbl.push(s)
    }
}

/// A store is well-formed when no two records share a natural key and
/// every record is one the store accepts.
pub open spec fn store_wf(tbl: Seq<SampleView>) -> bool {
    &&& forall|i: int, j: int|
        0 <= i < j < tbl.len() ==> (#[trigger] tbl[i]).key() != (#[trigger] tbl[j]).key()
    &&& forall|i: int| 0 <= i < tbl.len() ==> (#[trigger] tbl[i]).wf()
}

/// The deduplicating store model: the persisted records in insertion
/// order, no two sharing a natural key.
pub struct SampleStore {
    rows: Vec<WasteWaterSample>,
}

impl View for SampleStore {
    type V = Seq<SampleView>;

    closed spec fn view(&self) -> Seq<SampleView> {
        self.rows.deep_view()
    }
}

impl SampleStore {
    /// No two records share a natural key, and every record is accepted.
    pub open spec fn wf(self) -> bool {
        store_wf(self@)
    }

    /// An empty store.
    pub fn new() -> (s: Self)
        ensures
            s@ == Seq::<SampleView>::empty(),
            s.wf(),
    {
        let s = SampleStore { rows: Vec::new() };
        proof {
            assert(s@ =~= Seq::<SampleView>::empty());
        }
        s
    }

    /// The stored records, in insertion order.
    pub fn records(&self) -> (r: &Vec<WasteWaterSample>)
        ensures
            r.deep_view() == self@,
    {
        &self.rows
    }

    /// How many records are stored.
    pub fn len(&self) -> (n: usize)
        ensures
            n == self@.len(),
    {
        self.rows.len()
    }
}

/// Whether `a` and `b` have the same natural key: exact equality on all
/// five key fields, with no normalization of case or whitespace.
pub fn same_natural_key(a: &WasteWaterSample, b: &WasteWaterSample) -> (r: bool)
    ensures
        r == (a@.key() == b@.key()),
{
    let r = a.sample_collection_date.year == b.sample_collection_date.year
        && a.sample_collection_date.month == b.sample_collection_date.month
        && a.sample_collection_date.day == b.sample_collection_date.day && a.site_name
        == b.site_name && a.county == b.county && a.pcr_pathogen_target == b.pcr_pathogen_target
        && a.pcr_gene_target == b.pcr_gene_target;
    r
}

/// Inserts `sample` unless a record with the same natural key is already
/// stored. Returns whether a new record was written; when it was not, no
/// stored field changes — later duplicates are silently ignored.
pub fn insert_wastewater_sample(store: &mut SampleStore, sample: WasteWaterSample) -> (inserted:
    bool)
    requires
        old(store).wf(),
        sample@.wf(),
    ensures
        final(store).wf(),
        final(store)@ == spec_insert(old(store)@, sample@),
        inserted == !contains_key(old(store)@, sample@.key()),
{
    let n = store.rows.len();
    proof {
        assert(store@.len() == store.rows@.len());
    }
    let mut i: usize = 0;
    while i < n
        invariant
            i <= n,
            store == old(store),
            old(store).wf(),
            sample@.wf(),
            n == store.rows@.len(),
            store@ == store.rows.deep_view(),
            store@.len() == n,
            forall|j: int| 0 <= j < i ==> (#[trigger] store@[j]).key() != sample@.key(),
        decreases n - i,
    {
        proof {
            assert(store@[i as int] == store.rows@[i as int]@);
        }
        if same_natural_key(&store.rows[i], &sample) {
            proof {
                assert(contains_key(store@, sample@.key()));
            }
            return false;
        }
        i = i + 1;
    }
    proof {
        assert(!contains_key(store@, sample@.key()));
    }
    let ghost old_view = store@;
    let ghost new_sample = sample@;
    store.rows.push(sample);
    proof {
        assert(store@ =~= old_view.push(new_sample));
        assert forall|i: int, j: int| 0 <= i < j < store@.len() implies (#[trigger] store@[i]).key()
            != (#[trigger] store@[j]).key() by {
            if j == store@.len() - 1 {
                assert(store@[i] == old_view[i]);
                assert(store@[j] == new_sample);
                if old_view[i].key() == new_sample.key() {
                    assert(contains_key(old_view, new_sample.key()));
                }
            }
        }
    }
    true
}

/// How one batch run went: every input is counted exactly once.
#[derive(Clone, Copy, Debug, PartialEq, Eq, Structural)]
pub struct BatchReport {
    /// Inputs written as new records.
    pub inserted: usize,
    /// Inputs skipped because their natural key was already stored.
    pub skipped_duplicate: usize,
    /// Inputs that failed conversion upstream; tolerated and tallied.
    pub failed_conversion: usize,
    /// All inputs of the batch.
    pub total: usize,
}

/// What a batch leaves behind: the store contents and the three tallies.
pub struct BatchOutcome {
    pub table: Seq<SampleView>,
    pub inserted: nat,
    pub skipped: nat,
    pub failed: nat,
}

/// Processing a batch in order: a converted sample is inserted unless its
/// key is already present (also counting keys first seen earlier in the
/// same batch); a conversion error is tallied and skipped.
pub open spec fn spec_batch(
    tbl: Seq<SampleView>,
    inputs: Seq<Result<SampleView, SpecParseError>>,
) -> BatchOutcome
    decreases inputs.len(),
{
    if inputs.len() == 0 {
        BatchOutcome { table: tbl, inserted: 0, skipped: 0, failed: 0 }
    } else {
        match inputs[0] {
            Ok(s) => {
                if contains_key(tbl, s.key()) {
                    let rest = spec_batch(tbl, inputs.drop_first());
                    BatchOutcome {
                        table: rest.table,
                        inserted: rest.inserted,
                        skipped: rest.skipped + 1,
                        failed: rest.failed,
                    }
                } else {
                    let rest = spec_batch(tbl.push(s), inputs.drop_first());
                    BatchOutcome {
                        table: rest.table,
                        inserted: rest.inserted + 1,
                        skipped: rest.skipped,
                        failed: rest.failed,
                    }
                }
            },
            Err(_) => {
                let rest = spec_batch(tbl, inputs.drop_first());
                BatchOutcome {
                    table: rest.table,
                    inserted: rest.inserted,
                    skipped: rest.skipped,
                    failed: rest.failed + 1,
                }
            },
        }
    }
}

/// The inputs of a batch, each as its model.
pub open spec fn inputs_view(inputs: Seq<Result<WasteWaterSample, ParseError>>) -> Seq<
    Result<SampleView, SpecParseError>,
> {
    Seq::new(
        inputs.len(),
        |i: int|
            match inputs[i] {
                Ok(s) => Ok(s@),
                Err(e) => Err(e@),
            },
    )
}

/// `inputs_view` commutes with dropping the first element.
proof fn lemma_inputs_view_drop_first(inputs: Seq<Result<WasteWaterSample, ParseError>>)
    requires
        inputs.len() > 0,
    ensures
        inputs_view(inputs).drop_first() =~= inputs_view(inputs.drop_first()),
{
    assert forall|j: int| 0 <= j < inputs.len() - 1 implies inputs_view(inputs).drop_first()[j]
        == inputs_view(inputs.drop_first())[j] by {
        assert(inputs.drop_first()[j] == inputs[j + 1]);
    }
}

/// Inserts a whole batch, in order. Converted samples are inserted unless
/// their natural key is already stored (a duplicate is skipped, its values
/// not written); conversion errors are tolerated, tallied and skipped.
/// The report counts every input exactly once.
pub fn insert_wastewater_samples(
    store: &mut SampleStore,
    inputs: Vec<Result<WasteWaterSample, ParseError>>,
) -> (report: BatchReport)
    requires
        old(store).wf(),
        forall|i: int|
            0 <= i < inputs@.len() && inputs@[i] is Ok ==> (#[trigger] inputs@[i])->Ok_0@.wf(),
    ensures
        final(store).wf(),
        final(store)@ == spec_batch(old(store)@, inputs_view(inputs@)).table,
        report.inserted == spec_batch(old(store)@, inputs_view(inputs@)).inserted,
        report.skipped_duplicate == spec_batch(old(store)@, inputs_view(inputs@)).skipped,
        report.failed_conversion == spec_batch(old(store)@, inputs_view(inputs@)).failed,
        report.total == inputs@.len(),
        report.inserted + report.skipped_duplicate + report.failed_conversion == report.total,
{
    let ghost all_inputs = inputs@;
    let ghost iv = inputs_view(inputs@);
    let ghost full = spec_batch(old(store)@, iv);
    let mut inputs = inputs;
    let total: usize = inputs.len();
    let mut inserted: usize = 0;
    let mut skipped: usize = 0;
    let mut failed: usize = 0;
    let mut n: usize = 0;
    proof {
        assert(inputs@ =~= all_inputs.skip(0));
    }
    while inputs.len() > 0
        invariant
            store.wf(),
            full == spec_batch(old(store)@, iv),
            iv == inputs_view(all_inputs),
            n + inputs@.len() == all_inputs.len(),
            all_inputs.len() == total,
            inputs@ =~= all_inputs.skip(n as int),
            forall|i: int|
                0 <= i < all_inputs.len() && all_inputs[i] is Ok ==> (#[trigger] all_inputs[i])
                    ->Ok_0@.wf(),
            full.table == spec_batch(store@, inputs_view(inputs@)).table,
            full.inserted == inserted + spec_batch(store@, inputs_view(inputs@)).inserted,
            full.skipped == skipped + spec_batch(store@, inputs_view(inputs@)).skipped,
            full.failed == failed + spec_batch(store@, inputs_view(inputs@)).failed,
            inserted + skipped + failed == n,
        decreases inputs@.len(),
    {
        let ghost rem = inputs@;
        let item = inputs.remove(0);
        proof {
            assert(item == rem[0]);
            assert(inputs@ =~= rem.drop_first());
            assert(rem[0] == all_inputs[n as int]);
            assert(inputs_view(rem)[0] == (match rem[0] {
                Ok(s) => Ok::<SampleView, SpecParseError>(s@),
                Err(e) => Err::<SampleView, SpecParseError>(e@),
            }));
            lemma_inputs_view_drop_first(rem);
            assert(inputs@ =~= all_inputs.skip(n + 1)) by {
                assert(rem.drop_first() =~= all_inputs.skip(n as int).drop_first());
                assert(all_inputs.skip(n as int).drop_first() =~= all_inputs.skip(n + 1));
            }
        }
        match item {
            Ok(sample) => {
                let was_inserted = insert_wastewater_sample(store, sample);
                if was_inserted {
                    inserted = inserted + 1;
                } else {
                    skipped = skipped + 1;
                }
            },
            Err(_) => {
                failed = failed + 1;
            },
        }
        n = n + 1;
    }
    proof {
        assert(inputs_view(inputs@).len() == 0);
        assert(full.inserted == inserted);
        assert(full.skipped == skipped);
        assert(full.failed == failed);
        assert(full.table == store@);
    }
    BatchReport {
        inserted,
        skipped_duplicate: skipped,
        failed_conversion: failed,
        total: n,
    }
}

/// A batch only appends: every record stored before the batch stands
/// unchanged at its old position, and exactly the `inserted` new records
/// follow it. No batch, failed or not, rewrites an existing record — so
/// writing the rows past the old length persists precisely the batch.
pub proof fn lemma_batch_appends(
    tbl: Seq<SampleView>,
    inputs: Seq<Result<SampleView, SpecParseError>>,
)
    ensures
        spec_batch(tbl, inputs).table.len() == tbl.len() + spec_batch(tbl, inputs).inserted,
        spec_batch(tbl, inputs).table.subrange(0, tbl.len() as int) =~= tbl,
    decreases inputs.len(),
{
    if inputs.len() > 0 {
        match inputs[0] {
            Ok(s) => {
                if contains_key(tbl, s.key()) {
                    lemma_batch_appends(tbl, inputs.drop_first());
                } else {
                    lemma_batch_appends(tbl.push(s), inputs.drop_first());
                    let out = spec_batch(tbl.push(s), inputs.drop_first());
                    assert(out.table.subrange(0, tbl.len() as int + 1) =~= tbl.push(s));
                    assert forall|i: int| 0 <= i < tbl.len() implies out.table[i] == tbl[i] by {
                        assert(out.table.subrange(0, tbl.len() as int + 1)[i] == tbl.push(s)[i]);
                    }
                    assert(out.table.subrange(0, tbl.len() as int) =~= tbl);
                }
            },
            Err(_) => {
                lemma_batch_appends(tbl, inputs.drop_first());
            },
        }
    }
}

/// Inserting a sample a second time — in the same batch, the same run or a
/// later run over the same store — changes nothing: the key is then
/// present, so the second insert is reported not-inserted and the store is
/// left exactly as it was.
pub proof fn lemma_insert_idempotent(tbl: Seq<SampleView>, s: SampleView)
    ensures
        contains_key(spec_insert(tbl, s), s.key()),
        spec_insert(spec_insert(tbl, s), s) == spec_insert(tbl, s),
{
    if !contains_key(tbl, s.key()) {
        assert(spec_insert(tbl, s)[tbl.len() as int] == s);
        assert(contains_key(tbl.push(s), s.key()));
    }
}

/// Two samples identical in the five key fields are duplicates, whatever
/// their concentration, update instant or poll timestamp: once the first
/// is stored, inserting the second changes nothing — its values are never
/// written over the first-seen record.
pub proof fn lemma_natural_key_sensitivity(tbl: Seq<SampleView>, s1: SampleView, s2: SampleView)
    requires
        s1.key() == s2.key(),
    ensures
        spec_insert(spec_insert(tbl, s1), s2) == spec_insert(tbl, s1),
{
    if !contains_key(tbl, s1.key()) {
        assert(spec_insert(tbl, s1)[tbl.len() as int] == s1);
        assert(contains_key(spec_insert(tbl, s1), s2.key()));
    }
}

} // verus!
