//! Runs of the model and the index files of their forecast hours: when a
//! run is complete, which run is the latest complete one, and what an index
//! file says about the records of a grib file.

use crate::error::GfsError;
use crate::s3_utils::ListBucketResult;
use crate::text::chars_of;
use crate::text::ends_with;
use crate::text::ends_with_spec;
use crate::text::parse_i32;
use crate::text::parse_i32_spec;
use crate::text::split_bounds;
use crate::text::split_spec;
use crate::text::bounds_mark;
use crate::text::copy_range;
use crate::time::candidate_run;
use crate::time::determine_latest_possible_run;
use crate::time::previous_run;
use crate::time::UtcInstant;
use vstd::prelude::*;

verus! {

/// The number of forecast files that a complete run of the 0.25 degree
/// product holds.
pub const NUM_EXPECTED_FORECASTS: usize = 209;

/// The number of runs that a search for the latest complete run probes
/// where the caller has no other wish.
pub const DEFAULT_RUNS_TO_TRY: usize = 3;

/// Whether `key` names a forecast file: neither an analysis file (`.anl`)
/// nor an index file (`.idx`).
pub open spec fn is_forecast_key(key: Seq<char>) -> bool {
    !ends_with_spec(key, ".anl"@) && !ends_with_spec(key, ".idx"@)
}

/// The number of forecast files among `keys`.
pub open spec fn forecast_count(keys: Seq<Seq<char>>) -> nat
    decreases keys.len(),
{
    if keys.len() == 0 {
        0
    } else {
        forecast_count(keys.drop_last()) + if is_forecast_key(keys.last()) {
            1nat
        } else {
            0nat
        }
    }
}

/// Whether a listing with these keys shows a run with `expected` forecast
/// files: it has contents, and at least `expected` of them are forecast
/// files. A listing without contents shows no run, whatever is expected.
pub open spec fn meets_threshold(keys: Option<Seq<Seq<char>>>, expected: nat) -> bool {
    match keys {
        Some(keys) => forecast_count(keys) >= expected,
        None => false,
    }
}

/// Whether a listing with these keys shows a complete run of the 0.25
/// degree product.
pub open spec fn listing_is_complete(keys: Option<Seq<Seq<char>>>) -> bool {
    meets_threshold(keys, NUM_EXPECTED_FORECASTS as nat)
}

/// What the search for the latest complete run goes by: how many forecast
/// files make a run complete, and how many runs it probes before it gives
/// up.
#[derive(Clone, Copy, Debug, PartialEq, Eq, Structural)]
pub struct RunResolver {
    pub expected_forecasts: usize,
    pub max_runs_to_try: usize,
}

/// Whether the run whose files `list_result` lists is complete.
pub fn gfs_run_is_complete(list_result: &ListBucketResult) -> (complete: bool)
    ensures
        complete == listing_is_complete(list_result.keys()),
{
    RunResolver::new().run_is_complete(list_result)
}

impl RunResolver {
    /// The resolver for the 0.25 degree product: 209 forecast files make a
    /// run complete, and three runs are probed.
    pub fn new() -> (resolver: RunResolver)
        ensures
            resolver.expected_forecasts == NUM_EXPECTED_FORECASTS,
            resolver.max_runs_to_try == DEFAULT_RUNS_TO_TRY,
    {
        RunResolver {
            expected_forecasts: NUM_EXPECTED_FORECASTS,
            max_runs_to_try: DEFAULT_RUNS_TO_TRY,
        }
    }

    /// Whether the run whose files `list_result` lists has as many forecast
    /// files as this resolver expects.
    pub fn run_is_complete(&self, list_result: &ListBucketResult) -> (complete: bool)
        ensures
            complete == meets_threshold(list_result.keys(), self.expected_forecasts as nat),
    {
        match &list_result.contents {
            Some(contents) => {
                let analysis = chars_of(".anl");
                let index = chars_of(".idx");
                let ghost keys = list_result.keys()->0;
                let mut num_forecasts: usize = 0;
                let mut i: usize = 0;
                assert(keys.take(0) =~= Seq::<Seq<char>>::empty());
                while i < contents.len()
                    invariant
                        i <= contents@.len(),
                        keys.len() == contents@.len(),
                        forall|k: int| 0 <= k < keys.len() ==> keys[k] == contents@[k].key@,
                        analysis@ == ".anl"@,
                        index@ == ".idx"@,
                        num_forecasts == forecast_count(keys.take(i as int)),
                        num_forecasts <= i,
                    decreases contents@.len() - i,
                {
                    let key = chars_of(contents[i].key.as_str());
                    assert(keys.take(i + 1).drop_last() =~= keys.take(i as int));
                    assert(keys.take(i + 1).last() == key@);
                    if !ends_with(&key, &analysis) && !ends_with(&key, &index) {
                        num_forecasts = num_forecasts + 1;
                    }
                    i += 1;
                }
                assert(keys.take(i as int) =~= keys);
                num_forecasts >= self.expected_forecasts
            },
            None => false,
        }
    }

    /// One step of the search for the latest complete run at or before
    /// `now`. `listings` holds the listings fetched so far, that of the
    /// latest run first and each next one an interval earlier. The answer
    /// is the first complete run among the first `max_runs_to_try`, or the
    /// run whose listing must be fetched next, or `RunNotFound` once
    /// `max_runs_to_try` runs have proved incomplete.
    pub fn resolve(&self, now: UtcInstant, listings: &Vec<ListBucketResult>) -> (step: Result<
        RunSearch,
        GfsError,
    >)
        ensures
            step == search_spec(
                now,
                self.max_runs_to_try as nat,
                self.expected_forecasts as nat,
                listings_keys(listings@),
                0,
            ),
    {
        let ghost keys = listings_keys(listings@);
        let mut run = match determine_latest_possible_run(now) {
            Some(run) => run,
            None => {
                return Err(GfsError::RunNotFound);
            },
        };
        let mut tried: usize = 0;
        loop
            invariant
                keys == listings_keys(listings@),
                candidate_run(now, tried as nat) == Some(run),
                tried <= listings@.len(),
                search_spec(
                    now,
                    self.max_runs_to_try as nat,
                    self.expected_forecasts as nat,
                    keys,
                    0,
                ) == search_spec(
                    now,
                    self.max_runs_to_try as nat,
                    self.expected_forecasts as nat,
                    keys,
                    tried as nat,
                ),
            decreases listings@.len() - tried,
        {
            if tried >= self.max_runs_to_try {
                return Err(GfsError::RunNotFound);
            }
            if tried >= listings.len() {
                return Ok(RunSearch::Probe(run));
            }
            if self.run_is_complete(&listings[tried]) {
                return Ok(RunSearch::Found(run));
            }
            tried = tried + 1;
            if tried >= self.max_runs_to_try {
                return Err(GfsError::RunNotFound);
            }
            match previous_run(run) {
                Some(earlier) => {
                    run = earlier;
                },
                None => {
                    return Err(GfsError::RunNotFound);
                },
            }
        }
    }
}

/// A listing whose keys include at least the expected number of forecast
/// files is complete however many analysis and index files it also holds;
/// one with fewer, or without contents, is not.
pub proof fn lemma_completeness_threshold(keys: Option<Seq<Seq<char>>>)
    ensures
        keys is None ==> !listing_is_complete(keys),
        keys is None ==> forall|expected: nat| !meets_threshold(keys, expected),
        keys matches Some(k) ==> (listing_is_complete(keys) <==> forecast_count(k) >= 209),
        keys matches Some(k) ==> k.len() < 209 ==> !listing_is_complete(keys),
        keys matches Some(k) ==> forecast_count(k) <= k.len(),
{
    if let Some(k) = keys {
        lemma_forecast_count_bound(k);
    }
}

/// There are no more forecast files among some keys than there are keys.
pub proof fn lemma_forecast_count_bound(keys: Seq<Seq<char>>)
    ensures
        forecast_count(keys) <= keys.len(),
    decreases keys.len(),
{
    if keys.len() > 0 {
        lemma_forecast_count_bound(keys.drop_last());
    }
}

/// What a search for the latest complete run does next.
#[derive(Clone, Copy, Debug, PartialEq, Eq, Structural)]
pub enum RunSearch {
    /// The listing of this run is needed next.
    Probe(UtcInstant),
    /// This run is the latest complete one.
    Found(UtcInstant),
}

/// The keys of each of `listings`.
pub open spec fn listings_keys(listings: Seq<ListBucketResult>) -> Seq<Option<Seq<Seq<char>>>> {
    Seq::new(listings.len(), |i: int| listings[i].keys())
}

/// The outcome of a search from `now` over at most `max_runs` runs, newest
/// first, of which the first `tried` are known to be incomplete and
/// `listings[i]` is the listing of the run `i` intervals before the latest:
/// the first complete run is found; a run whose listing is not there yet is
/// to be probed; and when `max_runs` runs were incomplete, or the next run
/// lies before the first countable second, no run is found. A run is
/// complete where its listing holds `expected` forecast files.
pub open spec fn search_spec(
    now: UtcInstant,
    max_runs: nat,
    expected: nat,
    listings: Seq<Option<Seq<Seq<char>>>>,
    tried: nat,
) -> Result<RunSearch, GfsError>
    decreases max_runs - tried,
{
    if tried >= max_runs {
        Err(GfsError::RunNotFound)
    } else {
        match candidate_run(now, tried) {
            None => Err(GfsError::RunNotFound),
            Some(run) => if tried >= listings.len() {
                Ok(RunSearch::Probe(run))
            } else if meets_threshold(listings[tried as int], expected) {
                Ok(RunSearch::Found(run))
            } else {
                search_spec(now, max_runs, expected, listings, tried + 1)
            },
        }
    }
}

/// One step of the search for the latest complete run of the 0.25 degree
/// product at or before `now`, over at most `max_runs_to_try` runs. See
/// [`RunResolver::resolve`].
pub fn resolve_latest_complete_run(
    now: UtcInstant,
    max_runs_to_try: usize,
    listings: &Vec<ListBucketResult>,
) -> (step: Result<RunSearch, GfsError>)
    ensures
        step == search_spec(
            now,
            max_runs_to_try as nat,
            NUM_EXPECTED_FORECASTS as nat,
            listings_keys(listings@),
            0,
        ),
{
    let resolver = RunResolver { expected_forecasts: NUM_EXPECTED_FORECASTS, max_runs_to_try };
    resolver.resolve(now, listings)
}

/// A search never names a run as found unless its listing is complete and
/// the listing of every newer run is not: the run found is the one `i`
/// intervals before the latest for the least `i` with a complete listing.
pub proof fn lemma_found_run_is_complete(
    now: UtcInstant,
    max_runs: nat,
    expected: nat,
    listings: Seq<Option<Seq<Seq<char>>>>,
    tried: nat,
)
    requires
        search_spec(now, max_runs, expected, listings, tried) is Ok,
        search_spec(now, max_runs, expected, listings, tried)->Ok_0 is Found,
    ensures
        exists|i: int|
            {
                &&& tried <= i < max_runs
                &&& i < listings.len()
                &&& meets_threshold(#[trigger] listings[i], expected)
                &&& candidate_run(now, i as nat) == Some(
                    search_spec(now, max_runs, expected, listings, tried)->Ok_0->Found_0,
                )
                &&& forall|j: int|
                    tried <= j < i ==> !meets_threshold(#[trigger] listings[j], expected)
            },
    decreases max_runs - tried,
{
    if meets_threshold(listings[tried as int], expected) {
        assert(meets_threshold(listings[tried as int], expected));
    } else {
        lemma_found_run_is_complete(now, max_runs, expected, listings, tried + 1);
        let i = choose|i: int|
            {
                &&& tried + 1 <= i < max_runs
                &&& i < listings.len()
                &&& meets_threshold(#[trigger] listings[i], expected)
                &&& candidate_run(now, i as nat) == Some(
                    search_spec(now, max_runs, expected, listings, tried + 1)->Ok_0->Found_0,
                )
                &&& forall|j: int|
                    tried + 1 <= j < i ==> !meets_threshold(#[trigger] listings[j], expected)
            };
        assert(meets_threshold(listings[i], expected));
    }
}

/// Where every probed run is incomplete the search finds no run: with
/// `max_runs` listings at hand, none of them complete, the outcome is
/// `RunNotFound`.
pub proof fn lemma_all_incomplete_is_not_found(
    now: UtcInstant,
    max_runs: nat,
    expected: nat,
    listings: Seq<Option<Seq<Seq<char>>>>,
    tried: nat,
)
    requires
        listings.len() >= max_runs,
        forall|i: int|
            tried <= i < max_runs ==> !meets_threshold(#[trigger] listings[i], expected),
    ensures
        search_spec(now, max_runs, expected, listings, tried) == Err::<RunSearch, GfsError>(
            GfsError::RunNotFound,
        ),
    decreases max_runs - tried,
{
    if tried < max_runs {
        lemma_all_incomplete_is_not_found(now, max_runs, expected, listings, tried + 1);
    }
}

/// A search asks for a listing only while every listing at hand is
/// incomplete, and then for that of the run one interval before the last
/// one probed; it never asks for more than `max_runs` listings.
pub proof fn lemma_probe_is_next_run(
    now: UtcInstant,
    max_runs: nat,
    expected: nat,
    listings: Seq<Option<Seq<Seq<char>>>>,
    tried: nat,
)
    requires
        tried <= listings.len(),
        search_spec(now, max_runs, expected, listings, tried) is Ok,
        search_spec(now, max_runs, expected, listings, tried)->Ok_0 is Probe,
    ensures
        listings.len() < max_runs,
        candidate_run(now, listings.len()) == Some(
            search_spec(now, max_runs, expected, listings, tried)->Ok_0->Probe_0,
        ),
        forall|j: int|
            tried <= j < listings.len() ==> !meets_threshold(#[trigger] listings[j], expected),
    decreases max_runs - tried,
{
    if tried < listings.len() {
        lemma_probe_is_next_run(now, max_runs, expected, listings, tried + 1);
    }
}

/// One record of a grib file, as its index file describes it.
#[derive(Debug, Clone, PartialEq, Eq)]
pub struct IdxRecord {
    /// The number of the record in the file, counted from one.
    pub index: i32,
    /// The offset of the record's first byte.
    pub start_byte: i32,
    /// The offset of the record's last byte; absent for the last record of
    /// the file, which runs to the end of the file.
    pub stop_byte: Option<i32>,
    /// The run that the file belongs to, as the index writes it.
    pub model_run: String,
    /// The parameter code, such as `UGRD`.
    pub parameter: String,
    /// The vertical level, such as `10 m above ground`.
    pub level: String,
    /// The kind of forecast, such as `anl`.
    pub forecast_type: String,
}

/// The mathematical value of an [`IdxRecord`].
pub struct IdxRecordView {
    pub index: i32,
    pub start_byte: i32,
    pub stop_byte: Option<i32>,
    pub model_run: Seq<char>,
    pub parameter: Seq<char>,
    pub level: Seq<char>,
    pub forecast_type: Seq<char>,
}

impl View for IdxRecord {
    type V = IdxRecordView;

    open spec fn view(&self) -> IdxRecordView {
        IdxRecordView {
            index: self.index,
            start_byte: self.start_byte,
            stop_byte: self.stop_byte,
            model_run: self.model_run@,
            parameter: self.parameter@,
            level: self.level@,
            forecast_type: self.forecast_type@,
        }
    }
}

/// The values of `records`, in order.
pub open spec fn records_view(records: Seq<IdxRecord>) -> Seq<IdxRecordView> {
    Seq::new(records.len(), |i: int| records[i]@)
}

/// The records of one index file, in the order of the file.
pub struct IdxCollection {
    pub records: Vec<IdxRecord>,
}

impl View for IdxCollection {
    type V = Seq<IdxRecordView>;

    open spec fn view(&self) -> Seq<IdxRecordView> {
        records_view(self.records@)
    }
}

impl IdxCollection {
    /// A collection without records.
    pub fn new() -> (collection: IdxCollection)
        ensures
            collection@ == Seq::<IdxRecordView>::empty(),
    {
        let collection = IdxCollection { records: Vec::new() };
        assert(collection@ =~= Seq::<IdxRecordView>::empty());
        collection
    }

    /// Adds `entry` behind the records already held.
    pub fn add_entry(&mut self, entry: IdxRecord)
        ensures
            final(self)@ == old(self)@.push(entry@),
    {
        self.records.push(entry);
        assert(self@ =~= old(self)@.push(entry@));
    }
}

/// `line` without a carriage return at its end.
pub open spec fn strip_cr(line: Seq<char>) -> Seq<char> {
    if line.len() > 0 && line.last() == '\r' {
        line.drop_last()
    } else {
        line
    }
}

/// The lines of `text`. A line ends at a line feed, or at a carriage
/// return directly followed by one; neither belongs to the line. What stands
/// behind the last line feed is a line of its own unless it is empty.
pub open spec fn lines_spec(text: Seq<char>) -> Seq<Seq<char>> {
    let pieces = split_spec(text, '\n');
    let count = if pieces.last().len() == 0 {
        pieces.len() - 1
    } else {
        pieces.len() as int
    };
    Seq::new(
        count as nat,
        |k: int|
            if k < pieces.len() - 1 {
                strip_cr(pieces[k])
            } else {
                pieces[k]
            },
    )
}

/// The run tag `tag` without the `d=` in front of it, however often it
/// stands there.
pub open spec fn strip_run_tag(tag: Seq<char>) -> Seq<char>
    decreases tag.len(),
{
    if tag.len() >= 2 && tag[0] == 'd' && tag[1] == '=' {
        strip_run_tag(tag.skip(2))
    } else {
        tag
    }
}

/// Whether `fields` are the six fields of a record, with or without a colon
/// behind the last of them.
pub open spec fn has_six_fields(fields: Seq<Seq<char>>) -> bool {
    fields.len() == 6 || (fields.len() == 7 && fields[6].len() == 0)
}

/// Whether `line` describes a record: six colon-delimited fields, the
/// first two of them decimal numbers that an `i32` holds.
pub open spec fn line_is_well_formed(line: Seq<char>) -> bool {
    let fields = split_spec(line, ':');
    &&& has_six_fields(fields)
    &&& parse_i32_spec(fields[0]) is Some
    &&& parse_i32_spec(fields[1]) is Some
}

/// The start byte that the well-formed `line` gives.
pub open spec fn line_start_byte(line: Seq<char>) -> i32 {
    parse_i32_spec(split_spec(line, ':')[1])->0 as i32
}

/// The last byte of a record whose successor starts at `next_start`: the
/// byte before it, where an `i32` can hold that offset.
pub open spec fn stop_before(next_start: i32) -> Option<i32> {
    if next_start > i32::MIN {
        Some((next_start - 1) as i32)
    } else {
        None
    }
}

/// The record that the well-formed `line` describes, given its stop byte.
pub open spec fn record_of_line(line: Seq<char>, stop_byte: Option<i32>) -> IdxRecordView {
    let fields = split_spec(line, ':');
    IdxRecordView {
        index: parse_i32_spec(fields[0])->0 as i32,
        start_byte: line_start_byte(line),
        stop_byte,
        model_run: strip_run_tag(fields[2]),
        parameter: fields[3],
        level: fields[4],
        forecast_type: fields[5],
    }
}

/// The records that the well-formed `lines` describe: one for each line,
/// in order, each ending at the byte before the next one starts and the
/// last one open-ended.
pub open spec fn records_of_lines(lines: Seq<Seq<char>>) -> Seq<IdxRecordView> {
    Seq::new(
        lines.len(),
        |k: int|
            record_of_line(
                lines[k],
                if k + 1 < lines.len() {
                    stop_before(line_start_byte(lines[k + 1]))
                } else {
                    None
                },
            ),
    )
}

/// Whether record `i` of `records` ends at the byte before record `i + 1`
/// starts.
pub open spec fn ends_before_next(records: Seq<IdxRecordView>, i: int) -> bool {
    records[i].stop_byte == stop_before(records[i + 1].start_byte)
}

/// Whether `records` lie one behind the other: each but the last ends at
/// the byte before its successor starts, and the last is open-ended.
pub open spec fn is_chained(records: Seq<IdxRecordView>) -> bool {
    &&& forall|i: int| 0 <= i < records.len() - 1 ==> #[trigger] ends_before_next(records, i)
    &&& records.len() > 0 ==> records.last().stop_byte is None
}

/// Whether every one of `lines` describes a record.
pub open spec fn all_well_formed(lines: Seq<Seq<char>>) -> bool {
    forall|k: int| 0 <= k < lines.len() ==> line_is_well_formed(#[trigger] lines[k])
}

/// Whether `e` is the error that a text with these lines fails with: it
/// names, counting from one, a line that is not well formed, and every line
/// behind that one is well formed.
pub open spec fn names_last_malformed(lines: Seq<Seq<char>>, e: GfsError) -> bool {
    &&& e matches GfsError::IndexFormatError { line }
    &&& 1 <= line <= lines.len()
    &&& !line_is_well_formed(lines[line - 1])
    &&& forall|j: int| line <= j < lines.len() ==> line_is_well_formed(#[trigger] lines[j])
}

/// Whether `bounds` marks, as half-open index ranges into `chars`, the
/// lines of `chars`.
pub open spec fn bounds_mark_lines(chars: Seq<char>, bounds: Seq<(usize, usize)>) -> bool {
    &&& bounds.len() == lines_spec(chars).len()
    &&& forall|k: int|
        0 <= k < bounds.len() ==> {
            &&& (#[trigger] bounds[k]).0 <= bounds[k].1 <= chars.len()
            &&& chars.subrange(bounds[k].0 as int, bounds[k].1 as int) == lines_spec(chars)[k]
        }
}

/// The index ranges of the lines of `chars`.
pub fn line_bounds(chars: &Vec<char>) -> (bounds: Vec<(usize, usize)>)
    ensures
        bounds_mark_lines(chars@, bounds@),
{
    assert(chars@.subrange(0, chars@.len() as int) =~= chars@);
    let pieces = split_bounds(chars, 0, chars.len(), '\n');
    let ghost split = split_spec(chars@, '\n');
    let mut bounds: Vec<(usize, usize)> = Vec::new();
    let mut k: usize = 0;
    while k < pieces.len()
        invariant
            k <= pieces@.len(),
            split == split_spec(chars@, '\n'),
            bounds_mark(chars@, 0, chars@.len() as int, pieces@, split),
            bounds@.len() == if k == pieces@.len() && split.last().len() == 0 {
                k - 1
            } else {
                k as int
            },
            forall|j: int|
                0 <= j < bounds@.len() ==> {
                    &&& (#[trigger] bounds@[j]).0 <= bounds@[j].1 <= chars@.len()
                    &&& chars@.subrange(bounds@[j].0 as int, bounds@[j].1 as int) == lines_spec(
                        chars@,
                    )[j]
                },
        decreases pieces@.len() - k,
    {
        let (from, to) = pieces[k];
        assert(chars@.subrange(from as int, to as int) == split[k as int]);
        if k + 1 < pieces.len() {
            if from < to && chars[to - 1] == '\r' {
                assert(split[k as int].last() == '\r');
                assert(chars@.subrange(from as int, to - 1) =~= split[k as int].drop_last());
                bounds.push((from, to - 1));
            } else {
                if from < to {
                    assert(split[k as int].last() == chars@[to - 1]);
                }
                bounds.push((from, to));
            }
        } else if from < to {
            bounds.push((from, to));
        }
        k += 1;
    }
    bounds
}

/// Moves `from` past every `d=` that stands at the start of
/// `chars[from..to]`.
fn skip_run_tag(chars: &Vec<char>, from: usize, to: usize) -> (start: usize)
    requires
        from <= to <= chars@.len(),
    ensures
        from <= start <= to,
        chars@.subrange(start as int, to as int) == strip_run_tag(
            chars@.subrange(from as int, to as int),
        ),
{
    let mut start: usize = from;
    while to - start >= 2 && chars[start] == 'd' && chars[start + 1] == '='
        invariant
            from <= start <= to <= chars@.len(),
            strip_run_tag(chars@.subrange(start as int, to as int)) == strip_run_tag(
                chars@.subrange(from as int, to as int),
            ),
        decreases to - start,
    {
        assert(chars@.subrange(start as int, to as int).skip(2) =~= chars@.subrange(
            start + 2,
            to as int,
        ));
        start = start + 2;
    }
    start
}

/// Reads the line `chars[from..to]` of `text` as a record that ends at
/// `stop_byte`; nothing where the line is not well formed.
fn parse_line(text: &str, chars: &Vec<char>, from: usize, to: usize, stop_byte: Option<i32>) -> (record:
    Option<IdxRecord>)
    requires
        text@ == chars@,
        from <= to <= chars@.len(),
    ensures
        match record {
            Some(r) => line_is_well_formed(chars@.subrange(from as int, to as int)) && r@
                == record_of_line(chars@.subrange(from as int, to as int), stop_byte),
            None => !line_is_well_formed(chars@.subrange(from as int, to as int)),
        },
{
    let ghost line = chars@.subrange(from as int, to as int);
    let fields = split_bounds(chars, from, to, ':');
    let ghost pieces = split_spec(line, ':');
    if fields.len() < 6 || fields.len() > 7 {
        return None;
    }
    if fields.len() == 7 && fields[6].0 != fields[6].1 {
        assert(pieces[6].len() == fields@[6].1 - fields@[6].0);
        return None;
    }
    if fields.len() == 7 {
        assert(pieces[6].len() == fields@[6].1 - fields@[6].0);
    }
    assert(pieces[0] == chars@.subrange(fields@[0].0 as int, fields@[0].1 as int));
    assert(pieces[1] == chars@.subrange(fields@[1].0 as int, fields@[1].1 as int));
    assert(pieces[2] == chars@.subrange(fields@[2].0 as int, fields@[2].1 as int));
    assert(pieces[3] == chars@.subrange(fields@[3].0 as int, fields@[3].1 as int));
    assert(pieces[4] == chars@.subrange(fields@[4].0 as int, fields@[4].1 as int));
    assert(pieces[5] == chars@.subrange(fields@[5].0 as int, fields@[5].1 as int));
    let index = match parse_i32(chars, fields[0].0, fields[0].1) {
        Some(index) => index,
        None => {
            return None;
        },
    };
    let start_byte = match parse_i32(chars, fields[1].0, fields[1].1) {
        Some(start_byte) => start_byte,
        None => {
            return None;
        },
    };
    let run_start = skip_run_tag(chars, fields[2].0, fields[2].1);
    let whole: &str = text.substring_char(from, to);
    let model_run = copy_range(whole, run_start - from, fields[2].1 - from);
    let parameter = copy_range(whole, fields[3].0 - from, fields[3].1 - from);
    let level = copy_range(whole, fields[4].0 - from, fields[4].1 - from);
    let forecast_type = copy_range(whole, fields[5].0 - from, fields[5].1 - from);
    assert(model_run@ =~= chars@.subrange(run_start as int, fields@[2].1 as int));
    assert(parameter@ =~= pieces[3]);
    assert(level@ =~= pieces[4]);
    assert(forecast_type@ =~= pieces[5]);
    Some(IdxRecord { index, start_byte, stop_byte, model_run, parameter, level, forecast_type })
}

/// The items of `items` in the opposite order.
pub fn reversed<T>(items: Vec<T>) -> (turned: Vec<T>)
    ensures
        turned@ == items@.reverse(),
{
    let mut items = items;
    let ghost given = items@;
    let mut turned: Vec<T> = Vec::new();
    while items.len() > 0
        invariant
            items@.len() <= given.len(),
            items@ == given.take(items@.len() as int),
            turned@.len() == given.len() - items@.len(),
            forall|j: int| 0 <= j < turned@.len() ==> turned@[j] == given[given.len() - 1 - j],
        decreases items@.len(),
    {
        let ghost before = items@;
        let item = items.pop().unwrap();
        assert(item == given[before.len() - 1]);
        turned.push(item);
        assert(items@ =~= given.take(items@.len() as int));
    }
    assert(turned@ =~= given.reverse());
    turned
}

/// Parses the text of an index file into its records, in the order of the
/// file. Each record ends at the byte before the next record starts, and
/// the last record has no stop byte. The text is read from its last line
/// to its first, so that each line finds the start byte of its successor
/// at hand. A single line that is not well formed fails the whole text:
/// the error names the last such line, and no record is returned.
pub fn parse_idx_file(idx_data: &str) -> (parsed: Result<IdxCollection, GfsError>)
    ensures
        match parsed {
            Ok(collection) => {
                &&& all_well_formed(lines_spec(idx_data@))
                &&& collection@ == records_of_lines(lines_spec(idx_data@))
                &&& is_chained(collection@)
            },
            Err(e) => names_last_malformed(lines_spec(idx_data@), e),
        },
{
    let chars = chars_of(idx_data);
    let bounds = line_bounds(&chars);
    let ghost lines = lines_spec(idx_data@);
    let ghost expected = records_of_lines(lines);
    let count: usize = bounds.len();
    let mut backwards = IdxCollection::new();
    let mut next_stop_byte: Option<i32> = None;
    let mut k: usize = count;
    while k > 0
        invariant
            k <= count,
            count == bounds@.len(),
            chars@ == idx_data@,
            lines == lines_spec(idx_data@),
            expected == records_of_lines(lines),
            bounds_mark_lines(chars@, bounds@),
            forall|j: int| k <= j < count ==> line_is_well_formed(#[trigger] lines[j]),
            backwards@.len() == count - k,
            forall|j: int| 0 <= j < backwards@.len() ==> backwards@[j] == expected[count - 1 - j],
            next_stop_byte == if k < count {
                stop_before(line_start_byte(lines[k as int]))
            } else {
                None
            },
        decreases k,
    {
        k = k - 1;
        let (from, to) = bounds[k];
        assert(chars@.subrange(from as int, to as int) == lines[k as int]);
        match parse_line(idx_data, &chars, from, to, next_stop_byte) {
            Some(record) => {
                next_stop_byte = record.start_byte.checked_sub(1);
                assert(record@ == expected[k as int]);
                backwards.add_entry(record);
            },
            None => {
                return Err(GfsError::IndexFormatError { line: k + 1 });
            },
        }
    }
    let ghost pushed = backwards@;
    let records = reversed(backwards.records);
    let collection = IdxCollection { records };
    assert forall|j: int| 0 <= j < count implies collection@[j] == expected[j] by {
        assert(collection@[j] == pushed[count - 1 - j]);
    }
    assert(collection@ =~= expected);
    proof {
        lemma_parsed_records_are_chained(lines);
    }
    Ok(collection)
}

/// The records of a parsed index lie one behind the other.
pub proof fn lemma_parsed_records_are_chained(lines: Seq<Seq<char>>)
    ensures
        records_of_lines(lines).len() == lines.len(),
        is_chained(records_of_lines(lines)),
{
    let records = records_of_lines(lines);
    assert forall|i: int| 0 <= i < records.len() - 1 implies #[trigger] ends_before_next(
        records,
        i,
    ) by {
        assert(records[i + 1].start_byte == line_start_byte(lines[i + 1]));
    }
}

/// In a parsed index, for any two adjacent records the first ends at the
/// byte before the second starts, and the last record is open-ended. A
/// successor that starts at the least offset an `i32` holds has no byte
/// before it; such a pair is left out.
pub proof fn lemma_records_are_contiguous(lines: Seq<Seq<char>>, i: int)
    requires
        0 <= i < lines.len(),
    ensures
        records_of_lines(lines).len() == lines.len(),
        i + 1 < lines.len() && records_of_lines(lines)[i + 1].start_byte > i32::MIN
            ==> records_of_lines(lines)[i].stop_byte == Some(
            (records_of_lines(lines)[i + 1].start_byte - 1) as i32,
        ),
        i + 1 == lines.len() ==> records_of_lines(lines)[i].stop_byte is None,
{
    lemma_parsed_records_are_chained(lines);
    if i + 1 < lines.len() {
        assert(ends_before_next(records_of_lines(lines), i));
    }
}

} // verus!
