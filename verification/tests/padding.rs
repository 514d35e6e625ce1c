use anyst::padding::plan_write;
use anyst::padding::plan_write_with;
use anyst::padding::Chunk;
use anyst::padding::PaddingScheme;
use anyst::padding::SchemeError;
use anyst::padding::Segment;
use anyst::text::NumberError;

const DEFAULT_TEXT: &str = "stop=8\n0=30-30\n1=100-400\n2=400-500,c,500-1000,c,500-1000,c,500-1000,c,500-1000\n3=9-9,500-1000\n4=500-1000\n5=500-1000\n6=500-1000\n7=500-1000";

fn real_bytes(chunks: &[Chunk]) -> Vec<u8> {
    let mut out = Vec::new();
    for c in chunks {
        if let Chunk::Real(b) = c {
            out.extend_from_slice(b);
        }
    }
    out
}

fn planned_len(chunks: &[Chunk]) -> usize {
    chunks
        .iter()
        .map(|c| match c {
            Chunk::Real(b) => b.len(),
            Chunk::Waste(n) => *n,
        })
        .sum()
}

fn parse_error(text: &str) -> SchemeError {
    match PaddingScheme::parse(text) {
        Ok(_) => panic!("accepted"),
        Err(e) => e,
    }
}

#[test]
fn default_scheme_has_the_documented_text() {
    let s = PaddingScheme::default_scheme();
    assert_eq!(s.raw, DEFAULT_TEXT);
    assert_eq!(s.stop, 8);
    assert_eq!(s.rules.len(), 8);
    assert_eq!(s.rules[&0], vec![Segment::Range(30, 30)]);
    assert_eq!(s.rules[&1], vec![Segment::Range(100, 400)]);
    assert_eq!(
        s.rules[&2],
        vec![
            Segment::Range(400, 500),
            Segment::Check,
            Segment::Range(500, 1000),
            Segment::Check,
            Segment::Range(500, 1000),
            Segment::Check,
            Segment::Range(500, 1000),
            Segment::Check,
            Segment::Range(500, 1000),
        ]
    );
    assert_eq!(s.rules[&3], vec![Segment::Range(9, 9), Segment::Range(500, 1000)]);
    for i in 4..8u32 {
        assert_eq!(s.rules[&i], vec![Segment::Range(500, 1000)]);
    }
}

#[test]
fn scheme_is_named_by_its_md5() {
    assert_eq!(
        PaddingScheme::default_scheme().md5_hex(),
        "75cff2ad89aadf5e257059ee571ebe11"
    );
    let empty = PaddingScheme::parse("").unwrap();
    assert_eq!(empty.md5_hex(), "d41d8cd98f00b204e9800998ecf8427e");
}

#[test]
fn white_space_and_empty_lines_do_not_matter() {
    let s = PaddingScheme::parse("\r\n  stop = 3 \r\n\n 1 = 5 - 9 , c ,\t2-2\u{3000}\n").unwrap();
    assert_eq!(s.stop, 3);
    assert_eq!(s.rules.len(), 1);
    assert_eq!(
        s.rules[&1],
        vec![Segment::Range(5, 9), Segment::Check, Segment::Range(2, 2)]
    );
}

#[test]
fn later_lines_replace_earlier_ones() {
    let s = PaddingScheme::parse("stop=1\nstop=+4\n2=1-1\n2=7-8").unwrap();
    assert_eq!(s.stop, 4);
    assert_eq!(s.rules[&2], vec![Segment::Range(7, 8)]);
}

#[test]
fn nothing_is_a_scheme_that_never_pads() {
    let s = PaddingScheme::parse("").unwrap();
    assert_eq!(s.stop, 0);
    assert!(s.rules.is_empty());
}

#[test]
fn scheme_errors_name_what_is_wrong() {
    let e = parse_error("stop=8\nnonsense");
    assert!(matches!(&e, SchemeError::Line(l) if l == "nonsense"));
    assert_eq!(e.message(), "invalid padding scheme line: nonsense");
    let e = parse_error("1= x ,c");
    assert!(matches!(&e, SchemeError::Segment(l) if l == "x"));
    assert_eq!(e.message(), "invalid padding segment: x");
    let e = parse_error("stop=");
    assert!(matches!(e, SchemeError::Number(NumberError::Empty)));
    assert_eq!(e.message(), "cannot parse integer from empty string");
    let e = parse_error("one=1-2");
    assert!(matches!(e, SchemeError::Number(NumberError::InvalidDigit)));
    assert_eq!(e.message(), "invalid digit found in string");
    let e = parse_error("1=1-4294967296");
    assert!(matches!(e, SchemeError::Number(NumberError::TooLarge)));
    assert_eq!(e.message(), "number too large to fit in target type");
}

#[test]
fn largest_number_is_accepted() {
    let s = PaddingScheme::parse("stop=4294967295\n4294967294=0-4294967295").unwrap();
    assert_eq!(s.stop, u32::MAX);
    assert_eq!(s.rules[&4294967294], vec![Segment::Range(0, u32::MAX)]);
}

#[test]
fn numbers_follow_the_sign_rules() {
    assert!(PaddingScheme::parse("stop=+").is_err());
    assert!(PaddingScheme::parse("stop=-1").is_err());
    assert_eq!(PaddingScheme::parse("stop=007").unwrap().stop, 7);
}

#[test]
fn data_fills_a_range_before_padding_does() {
    let s = PaddingScheme::parse("stop=8\n1=10-20,c,5-5").unwrap();
    let data = [7u8; 4];
    let chunks = plan_write_with(&s, 1, &[12, 0, 5], &data);
    assert_eq!(chunks, vec![Chunk::Real(&data[..]), Chunk::Waste(8)]);
}

#[test]
fn leftover_data_goes_out_in_one_piece() {
    let s = PaddingScheme::parse("stop=8\n1=3-3,c,2-2").unwrap();
    let data: Vec<u8> = (0..9).collect();
    let chunks = plan_write_with(&s, 1, &[3, 0, 2], &data);
    assert_eq!(
        chunks,
        vec![
            Chunk::Real(&data[0..3]),
            Chunk::Real(&data[3..5]),
            Chunk::Real(&data[5..9])
        ]
    );
}

#[test]
fn without_check_symbols_ranges_go_on_after_the_data() {
    let s = PaddingScheme::parse("stop=8\n3=9-9,500-1000").unwrap();
    let data = [1u8; 9];
    let chunks = plan_write_with(&s, 3, &[9, 600], &data);
    assert_eq!(chunks, vec![Chunk::Real(&data[..]), Chunk::Waste(600)]);
    assert_eq!(planned_len(&chunks), 609);
}

#[test]
fn check_symbol_ends_a_packet_without_data() {
    let s = PaddingScheme::parse("stop=8\n1=c,5-5").unwrap();
    assert_eq!(plan_write_with(&s, 1, &[0, 5], &[]), vec![]);
    assert_eq!(plan_write(&s, 1, &[]), vec![]);
}

#[test]
fn an_exact_fit_needs_no_padding() {
    let s = PaddingScheme::parse("stop=8\n1=4-4").unwrap();
    let data = [9u8; 4];
    assert_eq!(plan_write(&s, 1, &data), vec![Chunk::Real(&data[..])]);
}

#[test]
fn an_empty_range_sends_an_empty_piece() {
    let s = PaddingScheme::parse("stop=8\n1=0-0").unwrap();
    let data = [9u8; 2];
    assert_eq!(
        plan_write(&s, 1, &data),
        vec![Chunk::Real(&data[..0]), Chunk::Real(&data[..])]
    );
}

#[test]
fn writes_pass_through_from_the_stop_index_on() {
    let s = PaddingScheme::parse("stop=2\n2=100-100").unwrap();
    let data = [1u8, 2, 3];
    assert_eq!(plan_write(&s, 2, &data), vec![Chunk::Real(&data[..])]);
    assert_eq!(plan_write(&s, u32::MAX, &data), vec![Chunk::Real(&data[..])]);
    assert_eq!(plan_write(&s, 1, &data), vec![Chunk::Real(&data[..])]);
    assert_eq!(plan_write(&s, 1, &[]), vec![Chunk::Real(&data[..0])]);
}

#[test]
fn random_sizes_stay_within_their_bounds() {
    let s = PaddingScheme::default_scheme();
    let data = [5u8; 10];
    let mut seen = std::collections::HashSet::new();
    for _ in 0..200 {
        let chunks = plan_write(&s, 1, &data);
        assert_eq!(real_bytes(&chunks), data);
        let total = planned_len(&chunks);
        assert!(total >= 100 && total <= 400);
        seen.insert(total);
    }
    assert!(seen.len() > 1);
}

#[test]
fn reversed_bounds_mean_the_first() {
    let s = PaddingScheme::parse("stop=8\n0=9-3\n1=9-3").unwrap();
    assert_eq!(s.padding0_len(), 9);
    assert_eq!(plan_write(&s, 1, &[]), vec![Chunk::Waste(9)]);
}

#[test]
fn data_survives_every_built_in_rule() {
    let s = PaddingScheme::default_scheme();
    for len in [0usize, 1, 6, 7, 9, 29, 30, 399, 500, 1500, 5000] {
        let data: Vec<u8> = (0..len).map(|i| i as u8).collect();
        for index in 0..10u32 {
            assert_eq!(real_bytes(&plan_write(&s, index, &data)), data);
        }
    }
}

#[test]
fn authentication_padding_follows_rule_zero() {
    assert_eq!(PaddingScheme::default_scheme().padding0_len(), 30);
    assert_eq!(PaddingScheme::parse("stop=8").unwrap().padding0_len(), 0);
    assert_eq!(PaddingScheme::parse("0=c").unwrap().padding0_len(), 0);
    assert_eq!(PaddingScheme::parse("0=c,4-4,9-9").unwrap().padding0_len(), 4);
    let s = PaddingScheme::parse("0=5-6").unwrap();
    for _ in 0..50 {
        let n = s.padding0_len();
        assert!(n == 5 || n == 6);
    }
    assert_eq!(s.padding0_range(), Some((5, 6)));
}

#[test]
fn padding_follows_the_data() {
    let scheme = PaddingScheme::parse("stop=9\n1=4-4,6-6,0-0,3-3").unwrap();
    let data = [1u8; 7];
    let chunks = plan_write(&scheme, 1, &data);
    assert_eq!(
        chunks,
        vec![
            Chunk::Real(&data[..4]),
            Chunk::Real(&data[4..]),
            Chunk::Waste(3),
            Chunk::Real(&[]),
            Chunk::Waste(3),
        ]
    );
}
