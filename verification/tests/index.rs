use gfs_index::api::filter_by_query;
use gfs_index::api::filter_records;
use gfs_index::api::grib_request;
use gfs_index::api::idx_records;
use gfs_index::api::idx_request;
use gfs_index::api::GribRequest;
use gfs_index::api::parse_query_string;
use gfs_index::api::path_int;
use gfs_index::api::resolve_byte_range;
use gfs_index::api::select_byte_range;
use gfs_index::api::uri_query;
use gfs_index::api::QueryFilter;
use gfs_index::error::GfsError;
use gfs_index::gfs::line_bounds;
use gfs_index::gfs::parse_idx_file;
use gfs_index::gfs::reversed;
use gfs_index::gfs::IdxCollection;
use gfs_index::gfs::IdxRecord;
use gfs_index::s3_utils::ByteRange;

const TWO_LINES: &str =
    "1:0:d=2024010100:UGRD:10 m above ground:anl:\n2:524000:d=2024010100:VGRD:10 m above ground:anl:\n";

const FOUR_LINES: &str = "1:0:d=2024010100:PRMSL:mean sea level:anl:\n\
2:990253:d=2024010100:TMP:surface:anl:\n\
3:1500000:d=2024010100:TMP:2 m above ground:anl:\n\
4:2100000:d=2024010100:UGRD:10 m above ground:anl:\n";

fn record(
    index: i32,
    start_byte: i32,
    stop_byte: Option<i32>,
    parameter: &str,
    level: &str,
) -> IdxRecord {
    IdxRecord {
        index,
        start_byte,
        stop_byte,
        model_run: String::from("2024010100"),
        parameter: String::from(parameter),
        level: String::from(level),
        forecast_type: String::from("anl"),
    }
}

fn four_records() -> Vec<IdxRecord> {
    vec![
        record(1, 0, Some(990252), "PRMSL", "mean sea level"),
        record(2, 990253, Some(1499999), "TMP", "surface"),
        record(3, 1500000, Some(2099999), "TMP", "2 m above ground"),
        record(4, 2100000, None, "UGRD", "10 m above ground"),
    ]
}

#[test]
fn two_line_index_parses_to_two_records() {
    let parsed = parse_idx_file(TWO_LINES).unwrap();
    assert_eq!(parsed.records.len(), 2);
    assert_eq!(parsed.records[0], record(1, 0, Some(523999), "UGRD", "10 m above ground"));
    assert_eq!(parsed.records[1], record(2, 524000, None, "VGRD", "10 m above ground"));
}

#[test]
fn stop_bytes_come_from_the_next_record() {
    let parsed = parse_idx_file(FOUR_LINES).unwrap();
    assert_eq!(parsed.records, four_records());
    for i in 0..parsed.records.len() - 1 {
        assert_eq!(parsed.records[i].stop_byte, Some(parsed.records[i + 1].start_byte - 1));
    }
    assert_eq!(parsed.records[3].stop_byte, None);
}

#[test]
fn final_newline_is_optional() {
    let with = parse_idx_file("1:0:d=2024010100:UGRD:surface:anl:\n").unwrap();
    let without = parse_idx_file("1:0:d=2024010100:UGRD:surface:anl:").unwrap();
    assert_eq!(with.records, without.records);
    assert_eq!(with.records.len(), 1);
    assert_eq!(with.records[0].stop_byte, None);
}

#[test]
fn trailing_colon_is_optional() {
    let parsed = parse_idx_file("7:12:d=2024010100:HGT:500 mb:6 hour fcst").unwrap();
    assert_eq!(parsed.records.len(), 1);
    assert_eq!(parsed.records[0].index, 7);
    assert_eq!(parsed.records[0].start_byte, 12);
    assert_eq!(parsed.records[0].forecast_type, "6 hour fcst");
    assert_eq!(parsed.records[0].level, "500 mb");
}

#[test]
fn carriage_returns_before_line_feeds_are_dropped() {
    let parsed = parse_idx_file(
        "1:0:d=2024010100:UGRD:surface:anl\r\n2:10:d=2024010100:VGRD:surface:anl\r\n",
    )
    .unwrap();
    assert_eq!(parsed.records.len(), 2);
    assert_eq!(parsed.records[0].forecast_type, "anl");
    assert_eq!(parsed.records[1].forecast_type, "anl");
    assert_eq!(parsed.records[0].stop_byte, Some(9));
}

#[test]
fn empty_text_has_no_records() {
    assert_eq!(parse_idx_file("").unwrap().records.len(), 0);
}

#[test]
fn run_tag_loses_its_prefix() {
    let parsed = parse_idx_file("1:0:d=2024010100:UGRD:surface:anl:").unwrap();
    assert_eq!(parsed.records[0].model_run, "2024010100");
    let twice = parse_idx_file("1:0:d=d=2024010100:UGRD:surface:anl:").unwrap();
    assert_eq!(twice.records[0].model_run, "2024010100");
    let none = parse_idx_file("1:0:2024010100d=:UGRD:surface:anl:").unwrap();
    assert_eq!(none.records[0].model_run, "2024010100d=");
    let only = parse_idx_file("1:0:d=:UGRD:surface:anl:").unwrap();
    assert_eq!(only.records[0].model_run, "");
}

#[test]
fn five_fields_fail_the_whole_parse() {
    let text = "1:0:d=2024010100:UGRD:10 m above ground:anl:\n2:524000:d=2024010100:VGRD:anl\n";
    assert_eq!(
        parse_idx_file(text).err(),
        Some(GfsError::IndexFormatError { line: 2 })
    );
    let first_bad = "1:0:d=2024010100:UGRD:anl\n2:524000:d=2024010100:VGRD:surface:anl:\n";
    assert_eq!(
        parse_idx_file(first_bad).err(),
        Some(GfsError::IndexFormatError { line: 1 })
    );
}

#[test]
fn seven_fields_fail_the_parse() {
    assert_eq!(
        parse_idx_file("1:0:d=2024010100:UGRD:surface:anl:extra").err(),
        Some(GfsError::IndexFormatError { line: 1 })
    );
    assert_eq!(
        parse_idx_file("1:0:d=2024010100:UGRD:surface:anl::").err(),
        Some(GfsError::IndexFormatError { line: 1 })
    );
}

#[test]
fn numbers_must_be_numbers() {
    assert_eq!(
        parse_idx_file("one:0:d=2024010100:UGRD:surface:anl:").err(),
        Some(GfsError::IndexFormatError { line: 1 })
    );
    assert_eq!(
        parse_idx_file("1:0x10:d=2024010100:UGRD:surface:anl:").err(),
        Some(GfsError::IndexFormatError { line: 1 })
    );
    assert_eq!(
        parse_idx_file("1::d=2024010100:UGRD:surface:anl:").err(),
        Some(GfsError::IndexFormatError { line: 1 })
    );
    assert_eq!(
        parse_idx_file("1:2147483648:d=2024010100:UGRD:surface:anl:").err(),
        Some(GfsError::IndexFormatError { line: 1 })
    );
    assert_eq!(
        parse_idx_file("1: 5:d=2024010100:UGRD:surface:anl:").err(),
        Some(GfsError::IndexFormatError { line: 1 })
    );
}

#[test]
fn blank_line_fails_the_parse() {
    let text = "1:0:d=2024010100:UGRD:surface:anl:\n\n2:5:d=2024010100:VGRD:surface:anl:\n";
    assert_eq!(parse_idx_file(text).err(), Some(GfsError::IndexFormatError { line: 2 }));
}

#[test]
fn error_names_the_last_malformed_line() {
    let text = "bad\n1:0:d=2024010100:UGRD:surface:anl:\nworse\n2:5:d=2024010100:VGRD:surface:anl:\n";
    assert_eq!(parse_idx_file(text).err(), Some(GfsError::IndexFormatError { line: 3 }));
}

#[test]
fn largest_and_least_offsets() {
    let parsed = parse_idx_file(
        "1:-2147483648:d=x:A:l:t:\n2:-2147483648:d=x:B:l:t:\n3:+2147483647:d=x:C:l:t:\n",
    )
    .unwrap();
    assert_eq!(parsed.records[0].start_byte, i32::MIN);
    assert_eq!(parsed.records[0].stop_byte, None);
    assert_eq!(parsed.records[1].stop_byte, Some(2147483646));
    assert_eq!(parsed.records[2].start_byte, i32::MAX);
    assert_eq!(parsed.records[2].stop_byte, None);
}

#[test]
fn leading_zeros_are_read() {
    let parsed = parse_idx_file("0000000000000000000012:0000:d=x:A:l:t:").unwrap();
    assert_eq!(parsed.records[0].index, 12);
    assert_eq!(parsed.records[0].start_byte, 0);
}

#[test]
fn fields_keep_characters_beyond_ascii() {
    let parsed = parse_idx_file("1:0:d=2024010100:TMP:2 m über Grund:anl:").unwrap();
    assert_eq!(parsed.records[0].level, "2 m über Grund");
    assert_eq!(parsed.records[0].forecast_type, "anl");
}

#[test]
fn collection_keeps_entries_in_the_order_added() {
    let mut collection = IdxCollection::new();
    assert_eq!(collection.records.len(), 0);
    collection.add_entry(record(1, 0, Some(9), "A", "surface"));
    collection.add_entry(record(2, 10, None, "B", "surface"));
    assert_eq!(collection.records.len(), 2);
    assert_eq!(collection.records[0].parameter, "A");
    assert_eq!(collection.records[1].parameter, "B");
}

#[test]
fn reversed_turns_the_order() {
    assert_eq!(reversed(vec![1, 2, 3]), vec![3, 2, 1]);
    assert_eq!(reversed(Vec::<i32>::new()), Vec::<i32>::new());
}

#[test]
fn line_bounds_follow_the_line_rules() {
    let chars: Vec<char> = "ab\r\ncd\n\nef\r".chars().collect();
    assert_eq!(line_bounds(&chars), vec![(0, 2), (4, 6), (7, 7), (8, 11)]);
    let empty: Vec<char> = Vec::new();
    assert_eq!(line_bounds(&empty), Vec::<(usize, usize)>::new());
    let only_newline: Vec<char> = "\n".chars().collect();
    assert_eq!(line_bounds(&only_newline), vec![(0, 0)]);
}

#[test]
fn byte_range_of_ugrd_at_ten_metres() {
    let parsed = parse_idx_file(TWO_LINES).unwrap();
    assert_eq!(
        resolve_byte_range(&parsed.records, "ugrd", "10 m above ground"),
        Ok(ByteRange { start: 0, stop: Some(523999) })
    );
}

#[test]
fn byte_range_of_the_last_record_is_open() {
    let parsed = parse_idx_file(TWO_LINES).unwrap();
    assert_eq!(
        resolve_byte_range(&parsed.records, "VGRD", "10 m above ground"),
        Ok(ByteRange { start: 524000, stop: None })
    );
}

#[test]
fn byte_range_lowers_the_level_and_raises_the_parameter() {
    let records = four_records();
    assert_eq!(
        resolve_byte_range(&records, "tmp", "2 M Above Ground"),
        Ok(ByteRange { start: 1500000, stop: Some(2099999) })
    );
    assert_eq!(
        resolve_byte_range(&records, "Tmp", "SURFACE"),
        Ok(ByteRange { start: 990253, stop: Some(1499999) })
    );
}

#[test]
fn byte_range_needs_both_to_match() {
    let records = four_records();
    assert_eq!(
        resolve_byte_range(&records, "ugrd", "surface"),
        Err(GfsError::RecordNotFound)
    );
    assert_eq!(
        resolve_byte_range(&records, "rh", "2 m above ground"),
        Err(GfsError::RecordNotFound)
    );
    assert_eq!(resolve_byte_range(&Vec::new(), "tmp", "surface"), Err(GfsError::RecordNotFound));
}

#[test]
fn byte_range_takes_the_first_of_several() {
    let records = vec![
        record(1, 0, Some(9), "TMP", "surface"),
        record(2, 10, Some(19), "TMP", "surface"),
        record(3, 20, None, "TMP", "surface"),
    ];
    assert_eq!(
        resolve_byte_range(&records, "tmp", "surface"),
        Ok(ByteRange { start: 0, stop: Some(9) })
    );
}

#[test]
fn exact_selection_does_not_change_case() {
    let records = four_records();
    assert_eq!(
        select_byte_range(&records, "TMP", "surface"),
        Ok(ByteRange { start: 990253, stop: Some(1499999) })
    );
    assert_eq!(select_byte_range(&records, "tmp", "surface"), Err(GfsError::RecordNotFound));
    assert_eq!(select_byte_range(&records, "TMP", "Surface"), Err(GfsError::RecordNotFound));
}

#[test]
fn unrecognized_query_key_leaves_the_records_unchanged() {
    let query = parse_query_string("foo=bar");
    assert_eq!(query, QueryFilter { level: None, parameter: None });
    assert_eq!(filter_by_query(four_records(), &query), four_records());
}

#[test]
fn filter_by_level_is_exact() {
    let query = QueryFilter { level: Some(String::from("surface")), parameter: None };
    assert_eq!(
        filter_by_query(four_records(), &query),
        vec![record(2, 990253, Some(1499999), "TMP", "surface")]
    );
    let upper = QueryFilter { level: Some(String::from("Surface")), parameter: None };
    assert_eq!(filter_by_query(four_records(), &upper), Vec::<IdxRecord>::new());
}

#[test]
fn filter_by_parameter_raises_the_case() {
    let query = QueryFilter { level: None, parameter: Some(String::from("tmp")) };
    assert_eq!(
        filter_by_query(four_records(), &query),
        vec![
            record(2, 990253, Some(1499999), "TMP", "surface"),
            record(3, 1500000, Some(2099999), "TMP", "2 m above ground"),
        ]
    );
    assert_eq!(filter_records(four_records(), &query), Vec::<IdxRecord>::new());
}

#[test]
fn filter_by_both() {
    let query = parse_query_string("parameter=tmp&level=2 m above ground");
    assert_eq!(
        filter_by_query(four_records(), &query),
        vec![record(3, 1500000, Some(2099999), "TMP", "2 m above ground")]
    );
}

#[test]
fn filter_keeps_the_order() {
    let query = QueryFilter { level: None, parameter: None };
    assert_eq!(filter_records(four_records(), &query), four_records());
    assert_eq!(filter_records(Vec::new(), &query), Vec::<IdxRecord>::new());
}

#[test]
fn query_string_pairs() {
    assert_eq!(
        parse_query_string("level=surface&parameter=tmp"),
        QueryFilter {
            level: Some(String::from("surface")),
            parameter: Some(String::from("tmp")),
        }
    );
    assert_eq!(
        parse_query_string("level=surface&foo=bar&level=2 m above ground"),
        QueryFilter { level: Some(String::from("2 m above ground")), parameter: None }
    );
    assert_eq!(parse_query_string(""), QueryFilter { level: None, parameter: None });
    assert_eq!(parse_query_string("level"), QueryFilter { level: None, parameter: None });
    assert_eq!(
        parse_query_string("level="),
        QueryFilter { level: Some(String::new()), parameter: None }
    );
    assert_eq!(
        parse_query_string("parameter=a=b&&Level=x"),
        QueryFilter { level: None, parameter: Some(String::from("a=b")) }
    );
}

#[test]
fn query_of_a_uri() {
    assert_eq!(
        uri_query("/gfs/idx/2024/1/5/0/3?level=surface"),
        Some(String::from("level=surface"))
    );
    assert_eq!(uri_query("/gfs/idx/2024/1/5/0/3"), None);
    assert_eq!(uri_query("/a?b?c"), Some(String::from("b?c")));
    assert_eq!(uri_query("/a?"), Some(String::new()));
}

#[test]
fn path_integers_default_to_zero() {
    assert_eq!(path_int("2024"), 2024);
    assert_eq!(path_int("003"), 3);
    assert_eq!(path_int("-5"), -5);
    assert_eq!(path_int("+7"), 7);
    assert_eq!(path_int(""), 0);
    assert_eq!(path_int("abc"), 0);
    assert_eq!(path_int("12a"), 0);
    assert_eq!(path_int("-"), 0);
    assert_eq!(path_int("2147483647"), i32::MAX);
    assert_eq!(path_int("2147483648"), 0);
    assert_eq!(path_int("-2147483648"), i32::MIN);
    assert_eq!(path_int("-2147483649"), 0);
    assert_eq!(path_int("99999999999999999999999999"), 0);
}

#[test]
fn idx_request_reads_path_and_query() {
    let request = idx_request(
        "2024",
        "1",
        "5",
        "0",
        "3",
        "/gfs/idx/2024/1/5/0/3?level=surface&parameter=tmp&foo=bar",
    );
    assert_eq!(request.idx_key, "gfs.20240105/00/atmos/gfs.t00z.pgrb2.0p25.f003.idx");
    assert_eq!(
        request.filter,
        QueryFilter {
            level: Some(String::from("surface")),
            parameter: Some(String::from("tmp")),
        }
    );
}

#[test]
fn idx_request_defaults_bad_integers_to_zero() {
    let request = idx_request("2024", "x", "", "18", "1e2", "/gfs/idx/2024/x//18/1e2");
    assert_eq!(request.idx_key, "gfs.20240000/18/atmos/gfs.t18z.pgrb2.0p25.f000.idx");
    assert_eq!(request.filter, QueryFilter { level: None, parameter: None });
}

#[test]
fn idx_records_parse_and_filter() {
    let query = parse_query_string("parameter=tmp");
    assert_eq!(
        idx_records(FOUR_LINES, &query),
        Ok(vec![
            record(2, 990253, Some(1499999), "TMP", "surface"),
            record(3, 1500000, Some(2099999), "TMP", "2 m above ground"),
        ])
    );
    let unknown = parse_query_string("foo=bar");
    assert_eq!(idx_records(FOUR_LINES, &unknown), Ok(four_records()));
    assert_eq!(
        idx_records("1:0:d=2024010100:TMP:surface\n", &unknown),
        Err(GfsError::IndexFormatError { line: 1 })
    );
}

#[test]
fn grib_request_names_file_and_range() {
    assert_eq!(
        grib_request(TWO_LINES, "2024", "1", "1", "0", "0", "ugrd", "10 m above ground"),
        Ok(GribRequest {
            file_key: String::from("gfs.20240101/00/atmos/gfs.t00z.pgrb2.0p25.f000"),
            range: ByteRange { start: 0, stop: Some(523999) },
        })
    );
    assert_eq!(
        grib_request(TWO_LINES, "2024", "1", "1", "0", "0", "vgrd", "10 M ABOVE GROUND"),
        Ok(GribRequest {
            file_key: String::from("gfs.20240101/00/atmos/gfs.t00z.pgrb2.0p25.f000"),
            range: ByteRange { start: 524000, stop: None },
        })
    );
}

#[test]
fn grib_request_errors() {
    assert_eq!(
        grib_request(TWO_LINES, "2024", "1", "1", "0", "0", "tmp", "surface"),
        Err(GfsError::RecordNotFound)
    );
    assert_eq!(
        grib_request("garbage\n", "2024", "1", "1", "0", "0", "tmp", "surface"),
        Err(GfsError::IndexFormatError { line: 1 })
    );
    assert_eq!(
        grib_request("", "2024", "1", "1", "0", "0", "tmp", "surface"),
        Err(GfsError::RecordNotFound)
    );
}

#[test]
fn status_of_each_error() {
    assert_eq!(GfsError::RecordNotFound.status_code(), 404);
    assert_eq!(GfsError::RunNotFound.status_code(), 404);
    assert_eq!(GfsError::MalformedListing.status_code(), 500);
    assert_eq!(GfsError::NetworkFailure.status_code(), 500);
    assert_eq!(GfsError::IndexFormatError { line: 3 }.status_code(), 500);
}

#[test]
fn lines_match_the_standard_lines() {
    for text in [
        "", "\n", "\n\n", "a", "a\n", "a\nb", "a\r\nb\r\n", "a\rb\n", "a\r", "\r\n", "a\n\r\nb",
        "a\r\r\nb", "x\n\ny\n",
    ] {
        let cs: Vec<char> = text.chars().collect();
        let lines: Vec<String> = line_bounds(&cs)
            .into_iter()
            .map(|(from, to)| cs[from..to].iter().collect())
            .collect();
        let expected: Vec<String> = text.lines().map(String::from).collect();
        assert_eq!(lines, expected, "{:?}", text);
    }
}

#[test]
fn long_index_is_chained_throughout() {
    let mut text = String::new();
    for i in 0..700 {
        text.push_str(&format!(
            "{}:{}:d=2024010100:TMP:{} mb:{} hour fcst:\n",
            i + 1,
            i * 1000 + i,
            1000 - i,
            i % 7
        ));
    }
    let parsed = parse_idx_file(&text).unwrap();
    assert_eq!(parsed.records.len(), 700);
    for i in 0..699 {
        assert_eq!(parsed.records[i].index, i as i32 + 1);
        assert_eq!(parsed.records[i].start_byte, (i * 1000 + i) as i32);
        assert_eq!(parsed.records[i].stop_byte, Some(parsed.records[i + 1].start_byte - 1));
        assert_eq!(parsed.records[i].level, format!("{} mb", 1000 - i));
    }
    assert_eq!(parsed.records[699].stop_byte, None);
    assert_eq!(
        resolve_byte_range(&parsed.records, "tmp", "500 MB"),
        Ok(ByteRange { start: 500500, stop: Some(501500) })
    );
}
