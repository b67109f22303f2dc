//! The public GFS bucket: what a listing of it holds, how the objects of a
//! run are named, and the addresses under which they are fetched.

use crate::text::append_zero_padded;
use crate::text::lemma_zero_padded_len;
use crate::text::pow10;
use crate::text::zero_padded;
use crate::time::calendar_date;
use crate::time::utc_calendar_date;
use crate::time::UtcInstant;
use vstd::prelude::*;
use vstd::string::StringExecFns;

verus! {

/// One stored object of a bucket listing.
#[derive(Debug, Clone, PartialEq, Eq)]
pub struct Contents {
    pub key: String,
    pub last_modified: String,
    pub e_tag: String,
    pub size: i32,
    pub storage_class: String,
}

/// The objects found under one key prefix. `contents` is absent, not
/// empty, where no key matched.
#[derive(Debug, Clone, PartialEq, Eq)]
pub struct ListBucketResult {
    pub name: String,
    pub prefix: String,
    pub key_count: i32,
    pub max_keys: i32,
    pub is_truncated: bool,
    pub contents: Option<Vec<Contents>>,
}

impl ListBucketResult {
    /// The keys of the listed objects, in the order of the listing, or
    /// nothing where the listing has no contents.
    pub open spec fn keys(&self) -> Option<Seq<Seq<char>>> {
        match self.contents {
            Some(entries) => Some(Seq::new(entries@.len(), |i: int| entries@[i].key@)),
            None => None,
        }
    }
}

/// The key prefix shared by every forecast file of the run that started on
/// the given date at the given hour:
/// `gfs.<YYYYMMDD>/<HH>/atmos/gfs.t<HH>z.pgrb2.0p25`, each number
/// zero-filled to its width and written in full where it is wider.
pub open spec fn run_prefix_spec(year: int, month: int, day: int, hour: int) -> Seq<char> {
    "gfs."@ + zero_padded(year, 4) + zero_padded(month, 2) + zero_padded(day, 2) + "/"@
        + zero_padded(hour, 2) + "/atmos/gfs.t"@ + zero_padded(hour, 2) + "z.pgrb2.0p25"@
}

/// The key of the grib file of one forecast hour: the run's prefix, `.f`
/// and the forecast hour zero-filled to three digits.
pub open spec fn grib_file_key_spec(
    year: int,
    month: int,
    day: int,
    hour: int,
    forecast: int,
) -> Seq<char> {
    run_prefix_spec(year, month, day, hour) + ".f"@ + zero_padded(forecast, 3)
}

/// The key of the index of one forecast hour: the grib file's key and `.idx`.
pub open spec fn grib_idx_key_spec(
    year: int,
    month: int,
    day: int,
    hour: int,
    forecast: int,
) -> Seq<char> {
    grib_file_key_spec(year, month, day, hour, forecast) + ".idx"@
}

fn run_prefix(year: i64, month: i64, day: i64, hour: i64) -> (prefix: String)
    ensures
        prefix@ == run_prefix_spec(year as int, month as int, day as int, hour as int),
{
    let mut prefix = String::from_str("gfs.");
    append_zero_padded(&mut prefix, year, 4);
    append_zero_padded(&mut prefix, month, 2);
    append_zero_padded(&mut prefix, day, 2);
    prefix.append("/");
    append_zero_padded(&mut prefix, hour, 2);
    prefix.append("/atmos/gfs.t");
    append_zero_padded(&mut prefix, hour, 2);
    prefix.append("z.pgrb2.0p25");
    prefix
}

/// The key prefix of the run that started on the given date and hour. The
/// numbers are not checked: a month of 13 gives a key that names nothing.
pub fn build_grib_run_prefix(year: i32, month: i32, day: i32, hour: i32) -> (prefix: String)
    ensures
        prefix@ == run_prefix_spec(year as int, month as int, day as int, hour as int),
{
    run_prefix(year as i64, month as i64, day as i64, hour as i64)
}

/// The key of the grib file of forecast hour `forecast` of a run.
pub fn build_grib_file_key(year: i32, month: i32, day: i32, hour: i32, forecast: i32) -> (key:
    String)
    ensures
        key@ == grib_file_key_spec(
            year as int,
            month as int,
            day as int,
            hour as int,
            forecast as int,
        ),
{
    let mut key = build_grib_run_prefix(year, month, day, hour);
    key.append(".f");
    append_zero_padded(&mut key, forecast as i64, 3);
    key
}

/// The key of the index file of forecast hour `forecast` of a run.
pub fn build_grib_idx_key(year: i32, month: i32, day: i32, hour: i32, forecast: i32) -> (key:
    String)
    ensures
        key@ == grib_idx_key_spec(
            year as int,
            month as int,
            day as int,
            hour as int,
            forecast as int,
        ),
{
    let mut key = build_grib_file_key(year, month, day, hour, forecast);
    key.append(".idx");
    key
}

/// The key prefix of a run, given the calendar date on which it starts.
pub fn grib_key_prefix_on(date: (i32, u32, u32), model_run: &UtcInstant) -> (prefix: String)
    ensures
        prefix@ == run_prefix_spec(
            date.0 as int,
            date.1 as int,
            date.2 as int,
            model_run.hour(),
        ),
{
    run_prefix(date.0 as i64, date.1 as i64, date.2 as i64, model_run.hour_of_day())
}

/// The keys of one forecast hour start with the prefix of their run, and
/// the key of the index is the key of the grib file with `.idx` behind it.
pub proof fn lemma_keys_share_prefix(year: int, month: int, day: int, hour: int, forecast: int)
    ensures
        run_prefix_spec(year, month, day, hour).is_prefix_of(
            grib_file_key_spec(year, month, day, hour, forecast),
        ),
        grib_file_key_spec(year, month, day, hour, forecast).is_prefix_of(
            grib_idx_key_spec(year, month, day, hour, forecast),
        ),
        grib_idx_key_spec(year, month, day, hour, forecast) == grib_file_key_spec(
            year,
            month,
            day,
            hour,
            forecast,
        ) + ".idx"@,
{
    let prefix = run_prefix_spec(year, month, day, hour);
    let file = grib_file_key_spec(year, month, day, hour, forecast);
    let idx = grib_idx_key_spec(year, month, day, hour, forecast);
    assert(file.subrange(0, prefix.len() as int) =~= prefix);
    assert(idx.subrange(0, file.len() as int) =~= file);
}

/// For a year of at most four digits, a month, day and hour of at most two
/// and a forecast hour of at most three, none of them negative, every key
/// has the same length: 41 characters for the prefix of the run, 46 for the
/// grib file and 50 for its index.
pub proof fn lemma_key_lengths(year: int, month: int, day: int, hour: int, forecast: int)
    requires
        0 <= year < 10000,
        0 <= month < 100,
        0 <= day < 100,
        0 <= hour < 100,
        0 <= forecast < 1000,
    ensures
        run_prefix_spec(year, month, day, hour).len() == 41,
        grib_file_key_spec(year, month, day, hour, forecast).len() == 46,
        grib_idx_key_spec(year, month, day, hour, forecast).len() == 50,
{
    reveal_strlit("gfs.");
    reveal_strlit("/");
    reveal_strlit("/atmos/gfs.t");
    reveal_strlit("z.pgrb2.0p25");
    reveal_strlit(".f");
    reveal_strlit(".idx");
    reveal_with_fuel(pow10, 5);
    lemma_zero_padded_len(year, 4);
    lemma_zero_padded_len(month, 2);
    lemma_zero_padded_len(day, 2);
    lemma_zero_padded_len(hour, 2);
    lemma_zero_padded_len(forecast, 3);
}

/// The key prefix of the run that starts at `model_run`, on the date that
/// the calendar gives for that instant; nothing where the instant lies
/// outside the calendar.
pub fn build_grib_key_prefix(model_run: &UtcInstant) -> (prefix: Option<String>)
    ensures
        match utc_calendar_date(model_run.secs) {
            Some(date) => prefix matches Some(p) && p@ == run_prefix_spec(
                date.0 as int,
                date.1 as int,
                date.2 as int,
                model_run.hour(),
            ),
            None => prefix is None,
        },
{
    match calendar_date(model_run.secs) {
        Some(date) => Some(grib_key_prefix_on(date, model_run)),
        None => None,
    }
}

/// The name of the public bucket that holds the GFS output.
pub fn s3_bucket() -> (name: &'static str)
    ensures
        name@ == "noaa-gfs-bdp-pds"@,
{
    "noaa-gfs-bdp-pds"
}

/// The address of object `key` in `bucket`.
pub open spec fn object_url_spec(bucket: Seq<char>, key: Seq<char>) -> Seq<char> {
    "https://"@ + bucket + ".s3.amazonaws.com/"@ + key
}

/// The address that lists the objects of `bucket` under `prefix`.
pub open spec fn listing_url_spec(bucket: Seq<char>, prefix: Seq<char>) -> Seq<char> {
    object_url_spec(bucket, "?list-type=2&prefix="@ + prefix)
}

/// The address from which object `key` of `bucket` is fetched.
pub fn object_url(bucket: &str, key: &str) -> (url: String)
    ensures
        url@ == object_url_spec(bucket@, key@),
{
    let mut url = String::from_str("https://");
    url.append(bucket);
    url.append(".s3.amazonaws.com/");
    url.append(key);
    url
}

/// The address from which the listing of the keys of `bucket` under
/// `grib_prefix` is fetched.
pub fn bucket_listing_url(bucket: &str, grib_prefix: &str) -> (url: String)
    ensures
        url@ == listing_url_spec(bucket@, grib_prefix@),
{
    let mut url = String::from_str("https://");
    url.append(bucket);
    url.append(".s3.amazonaws.com/");
    url.append("?list-type=2&prefix=");
    url.append(grib_prefix);
    assert(url@ =~= listing_url_spec(bucket@, grib_prefix@));
    url
}

/// The address from which the listing of the keys of the GFS bucket under
/// `grib_prefix` is fetched.
pub fn listing_url(grib_prefix: &str) -> (url: String)
    ensures
        url@ == listing_url_spec("noaa-gfs-bdp-pds"@, grib_prefix@),
{
    bucket_listing_url(s3_bucket(), grib_prefix)
}

/// The bytes of an object to fetch: from `start` to `stop`, both counted,
/// or from `start` to the end of the object where `stop` is absent.
#[derive(Clone, Copy, Debug, PartialEq, Eq, Structural)]
pub struct ByteRange {
    pub start: i32,
    pub stop: Option<i32>,
}

/// The value of the `Range` header that asks for `range`:
/// `bytes=<start>-<stop>`, with nothing after the hyphen for an open range.
pub open spec fn range_header_spec(range: ByteRange) -> Seq<char> {
    "bytes="@ + zero_padded(range.start as int, 0) + "-"@ + match range.stop {
        Some(stop) => zero_padded(stop as int, 0),
        None => Seq::<char>::empty(),
    }
}

/// The value of the `Range` header that asks for `range`.
pub fn range_header_value(range: ByteRange) -> (value: String)
    ensures
        value@ == range_header_spec(range),
{
    let mut value = String::from_str("bytes=");
    append_zero_padded(&mut value, range.start as i64, 0);
    value.append("-");
    match range.stop {
        Some(stop) => {
            append_zero_padded(&mut value, stop as i64, 0);
        },
        None => {
            assert(value@ =~= range_header_spec(range));
        },
    }
    value
}

} // verus!
