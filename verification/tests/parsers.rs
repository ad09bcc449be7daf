use logban::parser::ipv4::{parse_ipv4, read_octet};
use logban::parser::lanes::{
    add_adjacent, dword_bits, extract_dword, load, mul_add_pairs, mul_add_words, shuffle,
    sign_mask, sub_bytes, words_as_bytes,
};
use logban::parser::pattern::record_from_fields;
use logban::parser::simd::{layout_bits, layout_shuffle};
use logban::{Automaton, LineParser, ParseError, ParseResult, RegexError, RegexParser, SimdParser};

const PATTERN: &str = r#"^(?P<ip>\d+\.\d+\.\d+\.\d+) - [^ ]+ \[(?P<DT>[^\]]+)\]"#;

fn good_parser() -> RegexParser {
    RegexParser::new(PATTERN, "%d/%B/%Y:%H:%M:%S %z").unwrap()
}

#[test]
fn create_parser() {
    let parser = RegexParser::new(
        r#"^(?P<ip>\d+\.\d+\.\d+\.\d+) - [^ ]+ \[(?P<DT>[^\]]+)\]"#,
        "%d/%B/%Y:%H:%M:%S %z",
    );
    assert!(parser.is_ok());
}

#[test]
fn create_parser_without_dt() {
    let parser = RegexParser::new(r#"^(?P<ip>\d+\.\d+\.\d+\.\d+)"#, "%d/%B/%Y:%H:%M:%S %z");
    assert_eq!(parser.unwrap_err(), RegexError::DTGroupExpected);
}

#[test]
fn create_parser_without_ip() {
    let parser = RegexParser::new(r#""#, "%d/%B/%Y:%H:%M:%S %z");
    assert_eq!(parser.unwrap_err(), RegexError::IPGroupExpected);
}

#[test]
fn create_parser_invalid_regex() {
    let parser = RegexParser::new(
        r#"^(?P<ip>\d+\.\d+\.\d+\.\d+) - [^ ]+ \[(?P<DT>[^\]]+"#,
        "%d/%B/%Y:%H:%M:%S %z",
    );
    assert_eq!(parser.unwrap_err(), RegexError::UncompilableRegex);
}

#[test]
#[allow(deprecated)]
fn parse_line() {
    let parser = good_parser();
    let result = parser.parse_line(r#"1.1.1. - - [....]"#);
    assert_eq!(result.unwrap_err(), ParseError::InvalidLine);

    let result = parser.parse_line(r#"1.1.1.1 - - [....]"#);
    assert_eq!(result.unwrap_err(), ParseError::InvalidDateTime);

    let result = parser.parse_line(r#"12.13.156.1123 - - [25/May/2022:10:36:11 +0300] "GET /"#);
    assert_eq!(result.unwrap_err(), ParseError::InvalidIP);

    let result = parser.parse_line(r#"12.13.156.113 - - [25/May/2022:10:36:11 +0300] "GET /"#);
    assert_eq!(
        result.unwrap(),
        ParseResult {
            ip: u32::from_be_bytes([12, 13, 156, 113]),
            timestamp: chrono::DateTime::<chrono::FixedOffset>::from_utc(
                chrono::NaiveDate::from_ymd(2022, 5, 25).and_hms(7, 36, 11),
                chrono::FixedOffset::west(3 * 3600),
            )
            .timestamp()
        }
    );
}

#[test]
fn test_simd_parser() {
    let parser = SimdParser::new();
    let mut results = Vec::new();
    for n in 0u32..100 {
        let line = format!(
            "10.{}.{}.{} - - [25/May/2022:{:02}:{:02}:{:02} +0300] \"GET /item/{} HTTP/1.1\" 200 512",
            n,
            (n * 7) % 256,
            (n * 13) % 256,
            n % 24,
            n % 60,
            (n * 3) % 60,
            n
        );
        let result = parser.parse_line(line.as_bytes()).unwrap();
        assert_eq!(result.ip, u32::from_be_bytes([10, n as u8, ((n * 7) % 256) as u8, ((n * 13) % 256) as u8]));
        assert_eq!(result.timestamp, ((n % 24) * 3600 + (n % 60) * 60 + (n * 3) % 60) as i64);
        results.push(result);
    }
    assert_eq!(results.len(), 100);
}

#[test]
fn the_byte_parsers_read_the_sample_line() {
    let line = b"118.174.114.113 - - [25/May/2022:10:36:11 +0300] \"GET / HTTP/1.1\" 200 12";
    let expected = ParseResult { ip: 1991144049, timestamp: 38171 };
    assert_eq!(expected.ip, u32::from_be_bytes([118, 174, 114, 113]));
    assert_eq!(SimdParser::new().parse_line(&line[..]), Ok(expected));
    assert_eq!(Automaton.parse_line(&line[..]), Ok(expected));
}

#[test]
fn pattern_parser_reads_the_epoch_timestamp() {
    let line = "118.174.114.113 - - [25/May/2022:10:36:11 +0300] \"GET / HTTP/1.1\" 200 12";
    assert_eq!(
        good_parser().parse_line(line),
        Ok(ParseResult { ip: 1991144049, timestamp: 1653464171 })
    );
}

#[test]
fn all_three_parsers_agree_on_a_line_of_the_first_day() {
    let line = "8.8.4.4 - frank [01/January/1970:10:36:11 +0000] \"GET / HTTP/1.1\" 200 12";
    let expected = ParseResult { ip: u32::from_be_bytes([8, 8, 4, 4]), timestamp: 38171 };
    assert_eq!(good_parser().parse_line(line), Ok(expected));
    assert_eq!(SimdParser::new().parse_line(line.as_bytes()), Ok(expected));
    assert_eq!(Automaton.parse_line(line.as_bytes()), Ok(expected));
}

#[test]
fn the_byte_parsers_agree_on_every_layout() {
    let parser = SimdParser::new();
    let groups = ["7", "42", "255", "0", "10", "199"];
    for a in groups {
        for b in groups {
            for c in groups {
                for d in groups {
                    let line = format!("{a}.{b}.{c}.{d} - user [25/May/2022:23:59:59 +0300] \"GET /\"");
                    let expected = ParseResult {
                        ip: u32::from_be_bytes([
                            a.parse().unwrap(),
                            b.parse().unwrap(),
                            c.parse().unwrap(),
                            d.parse().unwrap(),
                        ]),
                        timestamp: 86399,
                    };
                    assert_eq!(parser.parse_line(line.as_bytes()), Ok(expected));
                    assert_eq!(Automaton.parse_line(line.as_bytes()), Ok(expected));
                    assert_eq!(parser.parse_ip_simd(line.as_bytes()), expected.ip);
                }
            }
        }
    }
}

#[test]
fn the_fast_parser_rejects_lines_without_the_structure() {
    let parser = SimdParser::new();
    assert_eq!(parser.parse_line(&b""[..]), Err(ParseError::InvalidLine));
    assert_eq!(parser.parse_line(&b"1.1.1.1 - - [x"[..]), Err(ParseError::InvalidLine));
    assert_eq!(parser.parse_line(&b"1.1.1.1.......nospace"[..]), Err(ParseError::InvalidLine));
    assert_eq!(parser.parse_line(&b"118.174.114.113 -"[..]), Err(ParseError::InvalidLine));
    assert_eq!(parser.parse_line(&b"118.174.114.113 - - [none]"[..]), Err(ParseError::InvalidLine));
    assert_eq!(
        parser.parse_line(&b"118.174.114.113 - - [25/May/2022:10:36:1"[..]),
        Err(ParseError::InvalidLine)
    );
    assert_eq!(
        parser.parse_line(&b"118.174.114.113 - - [25/May/2022:10:36:11"[..]),
        Ok(ParseResult { ip: 1991144049, timestamp: 38171 })
    );
}

#[test]
fn the_scanner_never_fails() {
    assert_eq!(Automaton.parse_line(&b""[..]), Ok(ParseResult { ip: 0, timestamp: 0 }));
    assert_eq!(Automaton.parse_line(&b"1.2"[..]), Ok(ParseResult { ip: 258, timestamp: 0 }));
    assert_eq!(
        Automaton.parse_line(&b"1.2.3.4 a b c :1:2:3"[..]),
        Ok(ParseResult { ip: 0x01020304, timestamp: 3723 })
    );
    assert_eq!(
        Automaton.parse_line(&b"300.1.1.1 - - [d:00:00:10 z"[..]),
        Ok(ParseResult { ip: 300u32 * 0x100_0000u32.wrapping_mul(1) + 0x010101, timestamp: 10 })
    );
    let odd = Automaton.parse_line(&b"/.1.1.1 - - [d:00:00:1/ z"[..]).unwrap();
    assert_eq!(odd.ip, 0xff01_0101);
    assert_eq!(odd.timestamp, 265);
}

#[test]
fn the_clock_path_reads_two_digits_each() {
    assert_eq!(SimdParser::parse_time_simd(b"00:00:00"), 0);
    assert_eq!(SimdParser::parse_time_simd(b"10:36:11"), 38171);
    assert_eq!(SimdParser::parse_time_simd(b"23:59:59 +0300"), 86399);
    assert_eq!(SimdParser::parse_time_simd(b"99x99y99"), 99 * 3600 + 99 * 60 + 99);
}

#[test]
fn shuffles_and_masks_of_a_layout() {
    assert_eq!(layout_bits(1, 1, 1, 1), 0b1010_1010);
    assert_eq!(layout_bits(3, 3, 3, 3), 0x8888);
    assert_eq!(layout_bits(3, 2, 1, 1), 0b101_0100_1000);
    assert_eq!(
        layout_shuffle(3, 3, 1, 1),
        [10, -1, -1, -1, 8, -1, -1, -1, 6, 5, 4, -1, 2, 1, 0, -1]
    );
    assert_eq!(
        layout_shuffle(1, 2, 3, 3),
        [11, 10, 9, -1, 7, 6, 5, -1, 3, 2, -1, -1, 0, -1, -1, -1]
    );
}

#[test]
fn lane_operations_compute_lane_by_lane() {
    let text = load(b"192.167.1.3 - x", 0, 15);
    assert_eq!(&text[..15], b"192.167.1.3 - x");
    assert_eq!(text[15], 0);
    let digits = sub_bytes(&text, b'0');
    assert_eq!(
        digits,
        [1, 9, 2, 254, 1, 6, 7, 254, 1, 254, 3, 240, 253, 240, 72, 208]
    );
    assert_eq!(sign_mask(&digits), 0b1011_1010_1000_1000);
    let picked = shuffle(&digits, &[10, -1, -1, -1, 8, -1, -1, -1, 6, 5, 4, -1, 2, 1, 0, -1]);
    assert_eq!(picked, [3, 0, 0, 0, 1, 0, 0, 0, 7, 6, 1, 0, 2, 9, 1, 0]);
    let weights = [1, 10, 100, 0, 1, 10, 100, 0, 1, 10, 100, 0, 1, 10, 100, 0];
    let products = mul_add_pairs(&weights, &picked);
    assert_eq!(products, [3, 0, 1, 0, 67, 100, 92, 100]);
    let sums = add_adjacent(&products);
    assert_eq!(sums, [3, 1, 167, 192, 3, 1, 167, 192]);
    let bytes = words_as_bytes(&sums);
    assert_eq!(bytes, [3, 0, 1, 0, 167, 0, 192, 0, 3, 0, 1, 0, 167, 0, 192, 0]);
    assert_eq!(extract_dword(&bytes, 0), 0x0001_0003);
    assert_eq!(extract_dword(&bytes, 1), 0x00c0_00a7);
}

#[test]
fn lane_arithmetic_saturates_and_wraps_as_stated() {
    let a = [255u8; 16];
    let b = [127u8; 16];
    assert_eq!(mul_add_pairs(&a, &b), [32767i16; 8]);
    let c = [128u8; 16];
    assert_eq!(mul_add_pairs(&a, &c), [-32768i16; 8]);
    assert_eq!(add_adjacent(&[32767, 1, -32768, -1, 5, 6, -7, -8]), [-32768, 32767, 11, -15, -32768, 32767, 11, -15]);
    assert_eq!(words_as_bytes(&[-1, -256, 258, 0, 0, 0, 0, 0])[..6], [255, 255, 0, 255, 2, 1]);
    let low = [-32768i16; 8];
    assert_eq!(mul_add_words(&low, &low), [i32::MIN; 4]);
    assert_eq!(mul_add_words(&[2, 3, 4, 5, 0, 0, -1, 1], &[10, 100, -1, 1, 9, 9, 7, 7]), [320, 1, 0, 0]);
    assert_eq!(dword_bits(-1), u32::MAX);
    assert_eq!(dword_bits(5), 5);
}

#[test]
fn addresses_in_text_are_read_strictly() {
    assert_eq!(parse_ipv4(b"0.0.0.0"), Some(0));
    assert_eq!(parse_ipv4(b"255.255.255.255"), Some(u32::MAX));
    assert_eq!(parse_ipv4(b"12.13.156.113"), Some(202218609));
    assert_eq!(parse_ipv4(b"12.13.156.1123"), None);
    assert_eq!(parse_ipv4(b"256.1.1.1"), None);
    assert_eq!(parse_ipv4(b"01.1.1.1"), None);
    assert_eq!(parse_ipv4(b"1.1.1"), None);
    assert_eq!(parse_ipv4(b"1.1.1."), None);
    assert_eq!(parse_ipv4(b"1.1.1.1."), None);
    assert_eq!(parse_ipv4(b"1..1.1"), None);
    assert_eq!(parse_ipv4(b" 1.1.1.1"), None);
    assert_eq!(parse_ipv4(b"1.1.1.1 "), None);
    assert_eq!(parse_ipv4(b""), None);
    assert_eq!(parse_ipv4(b"::1"), None);
    assert_eq!(read_octet(b"199.", 0), Some((199, 3)));
    assert_eq!(read_octet(b"x", 0), None);
}

#[test]
fn the_date_is_looked_at_before_the_address() {
    assert_eq!(record_from_fields(Some("1.2.3.4"), Some(7)), Ok(ParseResult { ip: 0x01020304, timestamp: 7 }));
    assert_eq!(record_from_fields(Some("1.2.3.4"), None), Err(ParseError::InvalidDateTime));
    assert_eq!(record_from_fields(Some("1.2.3"), None), Err(ParseError::InvalidDateTime));
    assert_eq!(record_from_fields(Some("1.2.3"), Some(7)), Err(ParseError::InvalidIP));
    assert_eq!(record_from_fields(None, Some(7)), Err(ParseError::InvalidIP));
}

#[test]
fn a_group_that_took_no_part_counts_as_unreadable() {
    let parser = RegexParser::new(r#"^(?:(?P<ip>\d\S+)|x) (?:\[(?P<DT>[^\]]+)\]|y)"#, "%d/%B/%Y:%H:%M:%S %z").unwrap();
    assert_eq!(parser.parse_line("1.2.3.4 y"), Err(ParseError::InvalidDateTime));
    assert_eq!(parser.parse_line("x [01/January/1970:00:00:05 +0000]"), Err(ParseError::InvalidIP));
    assert_eq!(
        parser.parse_line("1.2.3.4 [01/January/1970:00:00:05 +0000]"),
        Ok(ParseResult { ip: 0x01020304, timestamp: 5 })
    );
    assert_eq!(parser.parse_line("z"), Err(ParseError::InvalidLine));
}

#[test]
fn a_parser_remembers_its_pattern_and_format() {
    let parser = good_parser();
    assert_eq!(parser.source(), PATTERN);
    assert_eq!(parser.format(), "%d/%B/%Y:%H:%M:%S %z");
}

#[test]
fn errors_have_names() {
    assert_eq!(ParseError::InvalidLine.describe(), "InvalidLine");
    assert_eq!(ParseError::InvalidIP.describe(), "InvalidIP");
    assert_eq!(ParseError::InvalidDateTime.describe(), "InvalidDateTime");
    assert_eq!(ParseError::Unknown.describe(), "Unknown");
    assert_eq!(RegexError::IPGroupExpected.describe(), "IPGroupExpected");
    assert_eq!(RegexError::DTGroupExpected.describe(), "DTGroupExpected");
    assert_eq!(RegexError::UncompilableRegex.describe(), "UncompilableRegex");
}

#[test]
fn the_table_holds_zeros_where_the_mask_is_no_layout() {
    let parser = SimdParser::new();
    assert_eq!(parser.entry(0), &[0i8; 16]);
    assert_eq!(parser.entry(0xffff), &[0i8; 16]);
    assert_eq!(parser.entry(0b1010_1011), &[0i8; 16]);
    assert_eq!(parser.entry(0b1_0000_0000), &[0i8; 16]);
    assert_eq!(parser.entry(0b1000_1000_1001_0000), &[0i8; 16]);
    assert_eq!(
        parser.entry(0b1010_1010),
        &[6, -1, -1, -1, 4, -1, -1, -1, 2, -1, -1, -1, 0, -1, -1, -1]
    );
    assert_eq!(parser.entry(0xff00 | 0b1010_1010), parser.entry(0b1010_1010));
    assert_eq!(
        parser.entry(0x8888),
        &[14, 13, 12, -1, 10, 9, 8, -1, 6, 5, 4, -1, 2, 1, 0, -1]
    );
    let mut layouts = 0;
    for mask in 0..=u16::MAX {
        if parser.entry(mask) != &[0i8; 16] {
            layouts += 1;
        }
    }
    assert_eq!(layouts, 2401);
}

#[test]
fn the_byte_parsers_agree_whatever_the_second_field_holds() {
    let parser = SimdParser::new();
    let lines: [&[u8]; 6] = [
        b"1.2.3.4 - - [25/May/2022:10:36:11 +0300] \"GET /\"",
        b"1.2.3.4 ab cd [25/May/2022:10:36:11 +0300] \"GET /\"",
        b"1.2.3.4 ab - [25/May/2022:10:36:11 +0300] \"GET /\"",
        b"1.2.3.4 - a:b [25/May/2022:10:36:11 +0300] \"GET /\"",
        b"1.2.3.4 abc frank [25/May/2022:10:36:11 +0300] \"GET /\"",
        b"1.2.3.4 - - [25/May/2022:10:36:11",
    ];
    for line in lines {
        let expected = ParseResult { ip: 0x01020304, timestamp: 38171 };
        assert_eq!(parser.parse_line(line), Ok(expected));
        assert_eq!(Automaton.parse_line(line), Ok(expected));
    }
}
