use std::io::Write;

use wiktionary_dump::article::{article_from_block, extract, next_window, payload_range, DumpError};
use wiktionary_dump::dump::{offset_from_row, WiktionaryDump};
use wiktionary_dump::index::{parse_decimal, parse_index_line};
use wiktionary_dump::scan::find_from;

fn compress(text: &str) -> Vec<u8> {
    let mut enc = bzip2::write::BzEncoder::new(Vec::new(), bzip2::Compression::default());
    enc.write_all(text.as_bytes()).unwrap();
    enc.finish().unwrap()
}

fn memory_dump() -> WiktionaryDump {
    WiktionaryDump::new("corpus.xml.bz2", ":memory:").unwrap()
}

const BLOCK: &str = "<page>\n<title>Other</title>\n<text bytes=\"3\" xml:space=\"preserve\">one</text>\n</page>\n<page>\n<title>Example</title>\n<id>55</id>\n<text bytes=\"5\" xml:space=\"preserve\">HELLO</text>\n</page>\n";

#[test]
fn extract_scenario_from_decoded_block() {
    let text = "...<title>Example</title>...<text xml:space=\"preserve\">HELLO</text>...";
    assert_eq!(extract(text, "Example"), Some("HELLO".to_string()));
}

#[test]
fn extract_picks_the_record_of_the_title() {
    assert_eq!(extract(BLOCK, "Example"), Some("HELLO".to_string()));
    assert_eq!(extract(BLOCK, "Other"), Some("one".to_string()));
}

#[test]
fn extract_missing_title_is_none() {
    assert_eq!(extract(BLOCK, "Absent"), None);
    assert_eq!(extract(BLOCK, "Exampl"), None);
    assert_eq!(extract("", "Example"), None);
}

#[test]
fn extract_missing_payload_markers_is_none() {
    assert_eq!(extract("<title>A</title><text x=\"1\">body", "A"), None);
    assert_eq!(extract("<title>A</title>body</text>", "A"), None);
    // A payload-open tag must carry attributes.
    assert_eq!(extract("<title>A</title><text>body</text>", "A"), None);
}

#[test]
fn extract_title_with_pattern_characters() {
    let title = "C++ (a|b) [x]* ^$.?\\";
    let text = format!("<title>{}</title><text a=\"b\">found</text>", title);
    assert_eq!(extract(&text, title), Some("found".to_string()));
    assert_eq!(extract("<title>Cxx</title><text a=\"b\">no</text>", "C.."), None);
}

#[test]
fn extract_first_occurrence_wins() {
    let text = "<title>A</title><text a=\"1\">first</text><title>A</title><text a=\"2\">second</text>";
    assert_eq!(extract(text, "A"), Some("first".to_string()));
}

#[test]
fn extract_keeps_non_ascii_payload_and_empty_payload() {
    let text = "<title>ungefähr</title><text xml:space=\"preserve\">ungefähr — ≈</text>";
    assert_eq!(extract(text, "ungefähr"), Some("ungefähr — ≈".to_string()));
    assert_eq!(extract("<title>E</title><text a=\"b\"></text>", "E"), Some(String::new()));
}

#[test]
fn payload_range_gives_byte_positions() {
    let text = b"<title>T</title><text a=\"b\">xy</text>";
    assert_eq!(payload_range(text, b"T"), Some((28, 30)));
}

#[test]
fn find_from_finds_leftmost_at_or_after_start() {
    assert_eq!(find_from(b"abcabc", b"bc", 0), Some(1));
    assert_eq!(find_from(b"abcabc", b"bc", 2), Some(4));
    assert_eq!(find_from(b"abcabc", b"bd", 0), None);
    assert_eq!(find_from(b"ab", b"abc", 0), None);
}

#[test]
fn parse_decimal_values() {
    assert_eq!(parse_decimal(b"1024", u64::MAX), Some(1024));
    assert_eq!(parse_decimal(b"+7", u64::MAX), Some(7));
    assert_eq!(parse_decimal(b"0", 0), Some(0));
    assert_eq!(parse_decimal(b"", u64::MAX), None);
    assert_eq!(parse_decimal(b"+", u64::MAX), None);
    assert_eq!(parse_decimal(b"-1", u64::MAX), None);
    assert_eq!(parse_decimal(b"12a", u64::MAX), None);
    assert_eq!(parse_decimal(b"4294967295", u32::MAX as u64), Some(4294967295));
    assert_eq!(parse_decimal(b"4294967296", u32::MAX as u64), None);
    assert_eq!(parse_decimal(b"18446744073709551615", u64::MAX), Some(u64::MAX));
    assert_eq!(parse_decimal(b"18446744073709551616", u64::MAX), None);
}

#[test]
fn parse_index_line_well_formed() {
    let m = parse_index_line("1024:55:Example").unwrap().unwrap();
    assert_eq!(m.bz2_offset, 1024);
    assert_eq!(m.id, 55);
    assert_eq!(m.title, "Example");
    let m = parse_index_line("0:1:").unwrap().unwrap();
    assert_eq!(m.title, "");
}

#[test]
fn parse_index_line_wrong_field_count_is_skipped() {
    assert!(parse_index_line("1024:55").unwrap().is_none());
    assert!(parse_index_line("1024:55:Talk:Example").unwrap().is_none());
    assert!(parse_index_line("").unwrap().is_none());
    assert!(parse_index_line("no colons").unwrap().is_none());
}

#[test]
fn parse_index_line_bad_number_is_an_error() {
    assert_eq!(parse_index_line("x:55:Example").err(), Some(DumpError::BadIndexLine));
    assert_eq!(parse_index_line("1:4294967296:Example").err(), Some(DumpError::BadIndexLine));
    assert_eq!(parse_index_line("1::Example").err(), Some(DumpError::BadIndexLine));
}

#[test]
fn build_then_lookup_scenario() {
    let mut d = memory_dump();
    d.build_index("1024:55:Example").unwrap();
    assert_eq!(d.get_article_offset("Example"), Ok(Some(1024)));
}

#[test]
fn build_round_trip_every_title() {
    let text = "10:1:a\n20:2:b\r\n30:3:c d\n30:4:ungefähr\n";
    let mut d = memory_dump();
    d.build_index(text).unwrap();
    assert_eq!(d.get_article_offset("a"), Ok(Some(10)));
    assert_eq!(d.get_article_offset("b"), Ok(Some(20)));
    assert_eq!(d.get_article_offset("c d"), Ok(Some(30)));
    assert_eq!(d.get_article_offset("ungefähr"), Ok(Some(30)));
}

#[test]
fn absent_title_is_not_found() {
    let mut d = memory_dump();
    d.build_index("10:1:a\n").unwrap();
    assert_eq!(d.get_article_offset("A"), Ok(None));
    assert_eq!(d.get_article_offset("a "), Ok(None));
}

#[test]
fn malformed_lines_are_skipped() {
    let mut d = memory_dump();
    d.build_index("10:1:a\n11:2\n12:3:Talk:x\n\n13:4:b").unwrap();
    assert_eq!(d.get_article_offset("a"), Ok(Some(10)));
    assert_eq!(d.get_article_offset("b"), Ok(Some(13)));
    assert_eq!(d.get_article_offset("x"), Ok(None));
    assert_eq!(d.get_article_offset("Talk:x"), Ok(None));
    assert_eq!(d.get_article_offset("2"), Ok(None));
}

#[test]
fn bad_number_fails_the_build() {
    let mut d = memory_dump();
    assert_eq!(d.build_index("10:1:a\nten:2:b\n"), Err(DumpError::BadIndexLine));
    // Nothing of the failed build stays visible.
    assert!(!matches!(d.get_article_offset("a"), Ok(Some(_))));
    // The store is clean: a later build goes through.
    d.build_index("30:3:c\n").unwrap();
    assert_eq!(d.get_article_offset("a"), Ok(None));
    assert_eq!(d.get_article_offset("c"), Ok(Some(30)));
}

#[test]
fn too_large_offset_fails_the_build() {
    let mut d = memory_dump();
    assert_eq!(d.build_index("10:1:a\n9223372036854775808:2:b\n"), Err(DumpError::Storage));
    assert!(!matches!(d.get_article_offset("a"), Ok(Some(_))));
}

#[test]
fn duplicate_titles_first_inserted_wins() {
    let mut d = memory_dump();
    d.build_index("10:1:a\n20:2:a\n").unwrap();
    assert_eq!(d.get_article_offset("a"), Ok(Some(10)));
}

#[test]
fn second_build_on_one_store_fails() {
    let mut d = memory_dump();
    d.build_index("10:1:a\n").unwrap();
    assert_eq!(d.build_index("20:2:b\n"), Err(DumpError::Storage));
    assert_eq!(d.get_article_offset("a"), Ok(Some(10)));
    assert_eq!(d.get_article_offset("b"), Ok(None));
}

#[test]
fn build_from_compressed_index() {
    let mut d = memory_dump();
    d.make_multistream_index(&compress("1024:55:Example\n2048:56:Other\n")).unwrap();
    assert_eq!(d.get_article_offset("Other"), Ok(Some(2048)));
    let mut fresh = memory_dump();
    assert_eq!(fresh.make_multistream_index(b"not bzip2"), Err(DumpError::Decode));
    fresh.make_multistream_index(&compress("5:1:z\n")).unwrap();
    assert_eq!(fresh.get_article_offset("z"), Ok(Some(5)));
}

#[test]
fn article_from_compressed_block() {
    let block = compress(BLOCK);
    assert_eq!(article_from_block(&block, "Example"), Ok(Some("HELLO".to_string())));
    assert_eq!(article_from_block(&block, "Absent"), Ok(None));
}

#[test]
fn article_from_block_reads_only_the_first_stream() {
    let mut bytes = compress(BLOCK);
    bytes.extend(compress("<title>Later</title><text a=\"b\">later</text>"));
    assert_eq!(article_from_block(&bytes, "Later"), Ok(None));
    assert_eq!(article_from_block(&bytes, "Other"), Ok(Some("one".to_string())));
}

#[test]
fn stale_offset_is_a_decode_error() {
    let block = compress(BLOCK);
    assert_eq!(article_from_block(&block[5..], "Example"), Err(DumpError::Decode));
}

#[test]
fn cut_short_block_is_truncated() {
    let block = compress(BLOCK);
    assert_eq!(article_from_block(b"", "Example"), Err(DumpError::Truncated));
    assert_eq!(article_from_block(&block[..block.len() / 2], "Example"), Err(DumpError::Truncated));
}

#[test]
fn next_window_grows_only_on_a_cut_short_block() {
    assert_eq!(next_window(&Err(DumpError::Truncated), false, 1024), Some(2048));
    assert_eq!(next_window(&Err(DumpError::Truncated), true, 1024), None);
    assert_eq!(next_window(&Err(DumpError::Decode), false, 1024), None);
    assert_eq!(next_window(&Ok(None), false, 1024), None);
    assert_eq!(next_window(&Ok(Some("x".to_string())), false, 1024), None);
    assert_eq!(next_window(&Err(DumpError::Truncated), false, u64::MAX), None);
}

#[test]
fn offset_from_row_values() {
    assert_eq!(offset_from_row(None), Ok(None));
    assert_eq!(offset_from_row(Some(1024)), Ok(Some(1024)));
    assert_eq!(offset_from_row(Some(0)), Ok(Some(0)));
    assert_eq!(offset_from_row(Some(-1)), Err(DumpError::Storage));
}

#[test]
fn lookup_before_any_build_is_a_storage_error() {
    let d = memory_dump();
    assert_eq!(d.get_article_offset("a"), Err(DumpError::Storage));
}
