//! What a request asks for: the integers of its path, the filter in its
//! query string, and the records or the byte range that the filter selects.

use crate::error::GfsError;
use crate::gfs::all_well_formed;
use crate::gfs::lines_spec;
use crate::gfs::names_last_malformed;
use crate::gfs::parse_idx_file;
use crate::gfs::records_of_lines;
use crate::gfs::records_view;
use crate::gfs::reversed;
use crate::gfs::IdxRecord;
use crate::gfs::IdxRecordView;
use crate::s3_utils::build_grib_file_key;
use crate::s3_utils::build_grib_idx_key;
use crate::s3_utils::grib_file_key_spec;
use crate::s3_utils::grib_idx_key_spec;
use crate::s3_utils::ByteRange;
use crate::text::adjoins;
use crate::text::bounds_mark;
use crate::text::chars_of;
use crate::text::copy_range;
use crate::text::parse_i32;
use crate::text::parse_i32_spec;
use crate::text::range_equals;
use crate::text::split_bounds;
use crate::text::split_spec;
use vstd::prelude::*;
use vstd::string::StringExecFns;

verus! {

/// The integer that a path component writes, or zero where it writes none.
pub open spec fn path_int_spec(component: Seq<char>) -> i32 {
    match parse_i32_spec(component) {
        Some(value) => value as i32,
        None => 0,
    }
}

/// The integer that a path component writes in decimal; zero for a
/// component that is missing or is not a number.
pub fn path_int(component: &str) -> (value: i32)
    ensures
        value == path_int_spec(component@),
{
    let chars = chars_of(component);
    assert(chars@.subrange(0, chars@.len() as int) =~= chars@);
    match parse_i32(&chars, 0, chars.len()) {
        Some(value) => value,
        None => 0,
    }
}

/// What stands behind the first `mark` of `text`, where there is one.
pub open spec fn after_first(text: Seq<char>, mark: char) -> Option<Seq<char>> {
    let pieces = split_spec(text, mark);
    if pieces.len() >= 2 {
        Some(text.skip(pieces[0].len() as int + 1))
    } else {
        None
    }
}

/// The query string of `uri`: what stands behind its first question mark.
pub fn uri_query(uri: &str) -> (query: Option<String>)
    ensures
        match after_first(uri@, '?') {
            Some(q) => query matches Some(s) && s@ == q,
            None => query is None,
        },
{
    let chars = chars_of(uri);
    assert(chars@.subrange(0, chars@.len() as int) =~= chars@);
    let pieces = split_bounds(&chars, 0, chars.len(), '?');
    if pieces.len() >= 2 {
        let (from, to) = pieces[0];
        assert(adjoins(pieces@, 0));
        assert(chars@.subrange(from as int, to as int).len() == to - from);
        let query = copy_range(uri, to + 1, chars.len());
        assert(query@ =~= uri@.skip(split_spec(uri@, '?')[0].len() as int + 1));
        Some(query)
    } else {
        None
    }
}

/// The filter that a request puts on the records of an index.
#[derive(Debug, Clone, PartialEq, Eq)]
pub struct QueryFilter {
    /// Keep only the records of this level.
    pub level: Option<String>,
    /// Keep only the records of this parameter.
    pub parameter: Option<String>,
}

/// The characters of `text`, where there is one.
pub open spec fn text_view(text: Option<String>) -> Option<Seq<char>> {
    match text {
        Some(s) => Some(s@),
        None => None,
    }
}

/// Whether `param` is a pair `key=value` with this `key`.
pub open spec fn names_key(param: Seq<char>, key: Seq<char>) -> bool {
    split_spec(param, '=').len() >= 2 && split_spec(param, '=')[0] == key
}

/// The value of the last of `params` that has the form `key=value` with
/// this `key`, where there is one.
pub open spec fn query_value(params: Seq<Seq<char>>, key: Seq<char>) -> Option<Seq<char>>
    decreases params.len(),
{
    if params.len() == 0 {
        None
    } else {
        let param = params.last();
        if names_key(param, key) {
            Some(param.skip(key.len() as int + 1))
        } else {
            query_value(params.drop_last(), key)
        }
    }
}

/// A part of a query string that does not name `key` changes nothing about
/// the value that the query gives for `key`, wherever it stands among the
/// other parts.
pub proof fn lemma_other_pair_is_ignored(
    params: Seq<Seq<char>>,
    at: int,
    extra: Seq<char>,
    key: Seq<char>,
)
    requires
        0 <= at <= params.len(),
        !names_key(extra, key),
    ensures
        query_value(params.insert(at, extra), key) == query_value(params, key),
    decreases params.len() - at,
{
    let longer = params.insert(at, extra);
    if at == params.len() {
        assert(longer.drop_last() =~= params);
        assert(longer.last() == extra);
    } else {
        assert(longer.last() == params.last());
        assert(longer.drop_last() =~= params.drop_last().insert(at, extra));
        lemma_other_pair_is_ignored(params.drop_last(), at, extra, key);
    }
}

/// A query none of whose parts names `key` gives no value for it.
pub proof fn lemma_unnamed_key_has_no_value(params: Seq<Seq<char>>, key: Seq<char>)
    requires
        forall|i: int| 0 <= i < params.len() ==> !names_key(#[trigger] params[i], key),
    ensures
        query_value(params, key) is None,
    decreases params.len(),
{
    if params.len() > 0 {
        assert(!names_key(params.last(), key));
        lemma_unnamed_key_has_no_value(params.drop_last(), key);
    }
}

/// A filter that names neither a level nor a parameter keeps every record.
pub proof fn lemma_empty_filter_keeps_all(records: Seq<IdxRecordView>)
    ensures
        filter_spec(records, None, None) == records,
    decreases records.len(),
{
    if records.len() > 0 {
        lemma_empty_filter_keeps_all(records.drop_last());
        assert(records.drop_last().push(records.last()) =~= records);
    }
}

/// Every record that a filter keeps passes it and is one of the records
/// given, and filtering never makes more records.
pub proof fn lemma_filter_keeps_only_matches(
    records: Seq<IdxRecordView>,
    level: Option<Seq<char>>,
    parameter: Option<Seq<char>>,
)
    ensures
        filter_spec(records, level, parameter).len() <= records.len(),
        forall|i: int|
            0 <= i < filter_spec(records, level, parameter).len() ==> {
                &&& record_matches(
                    #[trigger] filter_spec(records, level, parameter)[i],
                    level,
                    parameter,
                )
                &&& records.contains(filter_spec(records, level, parameter)[i])
            },
    decreases records.len(),
{
    if records.len() > 0 {
        let shorter = records.drop_last();
        lemma_filter_keeps_only_matches(shorter, level, parameter);
        let kept = filter_spec(records, level, parameter);
        assert forall|i: int| 0 <= i < kept.len() implies {
            &&& record_matches(#[trigger] kept[i], level, parameter)
            &&& records.contains(kept[i])
        } by {
            let before = filter_spec(shorter, level, parameter);
            if i < before.len() {
                assert(kept[i] == before[i]);
                assert(shorter.contains(before[i]));
                let j = choose|j: int| 0 <= j < shorter.len() && shorter[j] == before[i];
                assert(records[j] == kept[i]);
            } else {
                assert(kept[i] == records.last());
                assert(records[records.len() - 1] == kept[i]);
            }
        }
    }
}

/// Reads the filter out of a query string. The string is a list of
/// `key=value` pairs joined by `&`. Only the keys `level` and `parameter`
/// count, of each the last occurrence; every other pair, and what is no
/// pair, is passed over.
pub fn parse_query_string(query_string: &str) -> (filter: QueryFilter)
    ensures
        text_view(filter.level) == query_value(split_spec(query_string@, '&'), "level"@),
        text_view(filter.parameter) == query_value(
            split_spec(query_string@, '&'),
            "parameter"@,
        ),
{
    let chars = chars_of(query_string);
    assert(chars@.subrange(0, chars@.len() as int) =~= chars@);
    let params = split_bounds(&chars, 0, chars.len(), '&');
    let ghost pieces = split_spec(query_string@, '&');
    let level_key = chars_of("level");
    let parameter_key = chars_of("parameter");
    let mut level: Option<String> = None;
    let mut parameter: Option<String> = None;
    let mut k: usize = 0;
    assert(pieces.take(0) =~= Seq::<Seq<char>>::empty());
    while k < params.len()
        invariant
            k <= params@.len(),
            chars@ == query_string@,
            pieces == split_spec(query_string@, '&'),
            bounds_mark(chars@, 0, chars@.len() as int, params@, pieces),
            level_key@ == "level"@,
            parameter_key@ == "parameter"@,
            text_view(level) == query_value(pieces.take(k as int), "level"@),
            text_view(parameter) == query_value(pieces.take(k as int), "parameter"@),
        decreases params@.len() - k,
    {
        let (from, to) = params[k];
        let ghost param = chars@.subrange(from as int, to as int);
        assert(param == pieces[k as int]);
        assert(pieces.take(k + 1).drop_last() =~= pieces.take(k as int));
        assert(pieces.take(k + 1).last() == param);
        let parts = split_bounds(&chars, from, to, '=');
        if parts.len() >= 2 {
            let (key_from, key_to) = parts[0];
            assert(adjoins(parts@, 0));
            assert(chars@.subrange(key_from as int, key_to as int).len() == key_to - key_from);
            assert(chars@.subrange(key_to + 1, to as int) =~= param.skip(key_to - key_from + 1));
            if range_equals(&chars, key_from, key_to, &level_key) {
                level = Some(copy_range(query_string, key_to + 1, to));
            }
            if range_equals(&chars, key_from, key_to, &parameter_key) {
                parameter = Some(copy_range(query_string, key_to + 1, to));
            }
        }
        k += 1;
    }
    assert(pieces.take(k as int) =~= pieces);
    QueryFilter { level, parameter }
}

/// Whether `record` passes a filter: it has the level asked for, where one
/// is asked for, and the parameter asked for, where one is asked for. Both
/// are compared character by character.
pub open spec fn record_matches(
    record: IdxRecordView,
    level: Option<Seq<char>>,
    parameter: Option<Seq<char>>,
) -> bool {
    &&& level matches Some(l) ==> record.level == l
    &&& parameter matches Some(p) ==> record.parameter == p
}

/// The records among `records` that pass the filter, in their order.
pub open spec fn filter_spec(
    records: Seq<IdxRecordView>,
    level: Option<Seq<char>>,
    parameter: Option<Seq<char>>,
) -> Seq<IdxRecordView>
    decreases records.len(),
{
    if records.len() == 0 {
        records
    } else {
        let before = filter_spec(records.drop_last(), level, parameter);
        if record_matches(records.last(), level, parameter) {
            before.push(records.last())
        } else {
            before
        }
    }
}

fn matches_filter(record: &IdxRecord, filter: &QueryFilter) -> (passes: bool)
    ensures
        passes == record_matches(record@, text_view(filter.level), text_view(filter.parameter)),
{
    let level_fits = match &filter.level {
        Some(level) => record.level == *level,
        None => true,
    };
    let parameter_fits = match &filter.parameter {
        Some(parameter) => record.parameter == *parameter,
        None => true,
    };
    level_fits && parameter_fits
}

/// Keeps the records that have exactly the level and the parameter of
/// `filter`, where it names them, in their order.
pub fn filter_records(records: Vec<IdxRecord>, filter: &QueryFilter) -> (kept: Vec<IdxRecord>)
    ensures
        records_view(kept@) == filter_spec(
            records_view(records@),
            text_view(filter.level),
            text_view(filter.parameter),
        ),
{
    let ghost given = records_view(records@);
    let ghost level = text_view(filter.level);
    let ghost parameter = text_view(filter.parameter);
    let count: usize = records.len();
    let mut backwards = reversed(records);
    let mut kept: Vec<IdxRecord> = Vec::new();
    assert(given.take(0) =~= Seq::<IdxRecordView>::empty());
    assert(records_view(kept@) =~= Seq::<IdxRecordView>::empty());
    while backwards.len() > 0
        invariant
            given.len() == count,
            backwards@.len() <= count,
            level == text_view(filter.level),
            parameter == text_view(filter.parameter),
            forall|j: int| 0 <= j < backwards@.len() ==> backwards@[j]@ == given[count - 1 - j],
            records_view(kept@) == filter_spec(
                given.take(count - backwards@.len()),
                level,
                parameter,
            ),
        decreases backwards@.len(),
    {
        let ghost seen = count - backwards@.len();
        let ghost before = records_view(kept@);
        let record = backwards.pop().unwrap();
        assert(record@ == given[seen]);
        assert(given.take(seen + 1).drop_last() =~= given.take(seen));
        assert(given.take(seen + 1).last() == record@);
        if matches_filter(&record, filter) {
            kept.push(record);
            assert(records_view(kept@) =~= before.push(record@));
        }
    }
    assert(given.take(count as int) =~= given);
    kept
}

/// `text` with every lower-case letter replaced by its upper-case form, as
/// Unicode defines it.
pub uninterp spec fn upper_cased(text: Seq<char>) -> Seq<char>;

/// `text` with every upper-case letter replaced by its lower-case form, as
/// Unicode defines it.
pub uninterp spec fn lower_cased(text: Seq<char>) -> Seq<char>;

/// Calls `str::to_uppercase` of the standard library. Nothing is proved of
/// it; the contract only names its result.
#[verifier::external_body]
pub(crate) fn to_upper(text: &str) -> (upper: String)
    ensures
        upper@ == upper_cased(text@),
{
    text.to_uppercase()
}

/// Calls `str::to_lowercase` of the standard library. Nothing is proved of
/// it; the contract only names its result.
#[verifier::external_body]
pub(crate) fn to_lower(text: &str) -> (lower: String)
    ensures
        lower@ == lower_cased(text@),
{
    text.to_lowercase()
}

/// The level of a query as it is held against the records: as it was
/// asked for, where the query names one.
pub open spec fn query_level(query: QueryFilter) -> Option<Seq<char>> {
    text_view(query.level)
}

/// The parameter of a query as it is held against the records: in upper
/// case, where the query names one.
pub open spec fn query_parameter(query: QueryFilter) -> Option<Seq<char>> {
    match query.parameter {
        Some(p) => Some(upper_cased(p@)),
        None => None,
    }
}

/// Keeps the records that a query asks for: those of its level, where it
/// names one, compared as written, and of its parameter, where it names
/// one, compared in upper case. A query that names neither keeps every
/// record.
pub fn filter_by_query(records: Vec<IdxRecord>, query: &QueryFilter) -> (kept: Vec<IdxRecord>)
    ensures
        records_view(kept@) == filter_spec(
            records_view(records@),
            query_level(*query),
            query_parameter(*query),
        ),
{
    let level = match &query.level {
        Some(level) => Some(String::from_str(level.as_str())),
        None => None,
    };
    let parameter = match &query.parameter {
        Some(parameter) => Some(to_upper(parameter.as_str())),
        None => None,
    };
    let exact = QueryFilter { level, parameter };
    filter_records(records, &exact)
}

/// The byte range of `record`.
pub open spec fn range_of(record: IdxRecordView) -> ByteRange {
    ByteRange { start: record.start_byte, stop: record.stop_byte }
}

/// The byte range of the first of `records` with exactly this parameter
/// and level; `RecordNotFound` where no record has both.
pub open spec fn select_spec(
    records: Seq<IdxRecordView>,
    parameter: Seq<char>,
    level: Seq<char>,
) -> Result<ByteRange, GfsError> {
    let kept = filter_spec(records, Some(level), Some(parameter));
    if kept.len() > 0 {
        Ok(range_of(kept[0]))
    } else {
        Err(GfsError::RecordNotFound)
    }
}

/// Filtering keeps a record exactly where one of the given records passes:
/// while none of the first `n` records passes, nothing of them is kept, and
/// the first record that passes is the first one kept.
pub proof fn lemma_first_kept(
    records: Seq<IdxRecordView>,
    level: Option<Seq<char>>,
    parameter: Option<Seq<char>>,
    n: int,
)
    requires
        0 <= n <= records.len(),
        forall|j: int| 0 <= j < n ==> !record_matches(#[trigger] records[j], level, parameter),
    ensures
        filter_spec(records.take(n), level, parameter).len() == 0,
        n < records.len() && record_matches(records[n], level, parameter) ==> {
            &&& filter_spec(records, level, parameter).len() > 0
            &&& filter_spec(records, level, parameter)[0] == records[n]
        },
        n == records.len() ==> filter_spec(records, level, parameter).len() == 0,
{
    lemma_take_unmatched(records, level, parameter, n);
    if n == records.len() {
        assert(records.take(n) =~= records);
    } else if record_matches(records[n], level, parameter) {
        lemma_kept_after(records, level, parameter, n, records.len() as int);
        assert(records.take(records.len() as int) =~= records);
    }
}

/// Nothing is kept of records of which none passes.
pub proof fn lemma_take_unmatched(
    records: Seq<IdxRecordView>,
    level: Option<Seq<char>>,
    parameter: Option<Seq<char>>,
    n: int,
)
    requires
        0 <= n <= records.len(),
        forall|j: int| 0 <= j < n ==> !record_matches(#[trigger] records[j], level, parameter),
    ensures
        filter_spec(records.take(n), level, parameter).len() == 0,
    decreases n,
{
    if n > 0 {
        lemma_take_unmatched(records, level, parameter, n - 1);
        assert(records.take(n).drop_last() =~= records.take(n - 1));
        assert(records.take(n).last() == records[n - 1]);
    } else {
        assert(records.take(0) =~= Seq::<IdxRecordView>::empty());
    }
}

/// Where record `n` is the first that passes, it is the first record kept
/// of any longer front part of the records.
pub proof fn lemma_kept_after(
    records: Seq<IdxRecordView>,
    level: Option<Seq<char>>,
    parameter: Option<Seq<char>>,
    n: int,
    m: int,
)
    requires
        0 <= n < m <= records.len(),
        forall|j: int| 0 <= j < n ==> !record_matches(#[trigger] records[j], level, parameter),
        record_matches(records[n], level, parameter),
    ensures
        filter_spec(records.take(m), level, parameter).len() > 0,
        filter_spec(records.take(m), level, parameter)[0] == records[n],
    decreases m,
{
    assert(records.take(m).drop_last() =~= records.take(m - 1));
    assert(records.take(m).last() == records[m - 1]);
    if m == n + 1 {
        lemma_take_unmatched(records, level, parameter, n);
    } else {
        lemma_kept_after(records, level, parameter, n, m - 1);
    }
}

/// The byte range of the first of `records` that has exactly this
/// parameter and this level.
pub fn select_byte_range(records: &Vec<IdxRecord>, parameter: &str, level: &str) -> (range: Result<
    ByteRange,
    GfsError,
>)
    ensures
        range == select_spec(records_view(records@), parameter@, level@),
{
    let wanted = QueryFilter {
        level: Some(String::from_str(level)),
        parameter: Some(String::from_str(parameter)),
    };
    let ghost given = records_view(records@);
    let mut i: usize = 0;
    while i < records.len()
        invariant
            i <= records@.len(),
            given == records_view(records@),
            text_view(wanted.level) == Some(level@),
            text_view(wanted.parameter) == Some(parameter@),
            forall|j: int|
                0 <= j < i ==> !record_matches(
                    #[trigger] given[j],
                    Some(level@),
                    Some(parameter@),
                ),
        decreases records@.len() - i,
    {
        if matches_filter(&records[i], &wanted) {
            proof {
                lemma_first_kept(given, Some(level@), Some(parameter@), i as int);
            }
            return Ok(ByteRange { start: records[i].start_byte, stop: records[i].stop_byte });
        }
        i += 1;
    }
    proof {
        lemma_first_kept(given, Some(level@), Some(parameter@), i as int);
    }
    Err(GfsError::RecordNotFound)
}

/// The byte range of the record that a request names: the first of
/// `records` whose parameter is the requested one in upper case and whose
/// level is the requested one in lower case. `RecordNotFound` where there
/// is no such record.
pub fn resolve_byte_range(records: &Vec<IdxRecord>, parameter: &str, level: &str) -> (range: Result<
    ByteRange,
    GfsError,
>)
    ensures
        range == select_spec(
            records_view(records@),
            upper_cased(parameter@),
            lower_cased(level@),
        ),
{
    let parameter = to_upper(parameter);
    let level = to_lower(level);
    select_byte_range(records, parameter.as_str(), level.as_str())
}

/// The value that the query string of `uri` gives for `key`, where the
/// address has a query string and the string names the key.
pub open spec fn uri_query_value(uri: Seq<char>, key: Seq<char>) -> Option<Seq<char>> {
    match after_first(uri, '?') {
        Some(query) => query_value(split_spec(query, '&'), key),
        None => None,
    }
}

/// What a request for the records of one index asks for: the key of the
/// index file, and the filter to put on its records.
#[derive(Debug, Clone, PartialEq, Eq)]
pub struct IdxRequest {
    pub idx_key: String,
    pub filter: QueryFilter,
}

/// Reads a request for the records of one index: the run and the forecast
/// hour from the five components of its path, each zero where it is no
/// number, and the filter from the query string of its address.
pub fn idx_request(
    year: &str,
    month: &str,
    day: &str,
    hour: &str,
    forecast: &str,
    uri: &str,
) -> (request: IdxRequest)
    ensures
        request.idx_key@ == grib_idx_key_spec(
            path_int_spec(year@) as int,
            path_int_spec(month@) as int,
            path_int_spec(day@) as int,
            path_int_spec(hour@) as int,
            path_int_spec(forecast@) as int,
        ),
        text_view(request.filter.level) == uri_query_value(uri@, "level"@),
        text_view(request.filter.parameter) == uri_query_value(uri@, "parameter"@),
{
    let idx_key = build_grib_idx_key(
        path_int(year),
        path_int(month),
        path_int(day),
        path_int(hour),
        path_int(forecast),
    );
    let filter = match uri_query(uri) {
        Some(query) => parse_query_string(query.as_str()),
        None => QueryFilter { level: None, parameter: None },
    };
    IdxRequest { idx_key, filter }
}

/// The records of the index text `idx_data` that `query` asks for, in the
/// order of the file. A text with a malformed line gives its error whatever
/// the query.
pub fn idx_records(idx_data: &str, query: &QueryFilter) -> (records: Result<
    Vec<IdxRecord>,
    GfsError,
>)
    ensures
        match records {
            Ok(kept) => {
                &&& all_well_formed(lines_spec(idx_data@))
                &&& records_view(kept@) == filter_spec(
                    records_of_lines(lines_spec(idx_data@)),
                    query_level(*query),
                    query_parameter(*query),
                )
            },
            Err(e) => names_last_malformed(lines_spec(idx_data@), e),
        },
{
    match parse_idx_file(idx_data) {
        Ok(collection) => Ok(filter_by_query(collection.records, query)),
        Err(e) => Err(e),
    }
}

/// What to fetch for one record of a grib file: the key of the file and
/// the bytes of the record in it.
#[derive(Debug, Clone, PartialEq, Eq)]
pub struct GribRequest {
    pub file_key: String,
    pub range: ByteRange,
}

/// Reads a request for the bytes of one record, given the text of the
/// index of its grib file: the key of the grib file from the five number
/// components of the path, and the byte range of the first record of the
/// index with the parameter, in upper case, and the level, in lower case,
/// that the path names. A malformed index fails with its error, and an
/// index without such a record with `RecordNotFound`.
pub fn grib_request(
    idx_data: &str,
    year: &str,
    month: &str,
    day: &str,
    hour: &str,
    forecast: &str,
    parameter: &str,
    level: &str,
) -> (request: Result<GribRequest, GfsError>)
    ensures
        match request {
            Ok(r) => {
                &&& all_well_formed(lines_spec(idx_data@))
                &&& Ok::<ByteRange, GfsError>(r.range) == select_spec(
                    records_of_lines(lines_spec(idx_data@)),
                    upper_cased(parameter@),
                    lower_cased(level@),
                )
                &&& r.file_key@ == grib_file_key_spec(
                    path_int_spec(year@) as int,
                    path_int_spec(month@) as int,
                    path_int_spec(day@) as int,
                    path_int_spec(hour@) as int,
                    path_int_spec(forecast@) as int,
                )
            },
            Err(e) => if all_well_formed(lines_spec(idx_data@)) {
                &&& e == GfsError::RecordNotFound
                &&& select_spec(
                    records_of_lines(lines_spec(idx_data@)),
                    upper_cased(parameter@),
                    lower_cased(level@),
                ) is Err
            } else {
                names_last_malformed(lines_spec(idx_data@), e)
            },
        },
{
    let collection = match parse_idx_file(idx_data) {
        Ok(collection) => collection,
        Err(e) => {
            return Err(e);
        },
    };
    match resolve_byte_range(&collection.records, parameter, level) {
        Ok(range) => {
            let file_key = build_grib_file_key(
                path_int(year),
                path_int(month),
                path_int(day),
                path_int(hour),
                path_int(forecast),
            );
            Ok(GribRequest { file_key, range })
        },
        Err(e) => Err(e),
    }
}

} // verus!
