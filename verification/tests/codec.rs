use bar::compress::lz77::{opt_bitsize, opt_max, Lz77, LzErr, LzSS};
use bar::compress::window::{longest_match, match_len};
use bar::compress::{Compressor, Optimize};

const LEVELS: [Optimize; 4] = [Optimize::Ultra, Optimize::High, Optimize::Average, Optimize::Less];

fn lz77_round_trip(data: &[u8]) -> Vec<u8> {
    let mut packed = Vec::new();
    Lz77::new(data.to_vec()).compress(&mut packed, Optimize::Average).unwrap();
    let mut back = Vec::new();
    Lz77::new(packed).decompress(&mut back, Optimize::Average).unwrap();
    back
}

fn lzss_round_trip(data: &[u8], level: Optimize) -> Vec<u8> {
    let mut packed = Vec::new();
    LzSS::new(data.to_vec()).compress(&mut packed, level).unwrap();
    let mut back = Vec::new();
    LzSS::new(packed).decompress(&mut back, level).unwrap();
    back
}

fn sample_text() -> Vec<u8> {
    let mut text = Vec::new();
    for i in 0..40u32 {
        text.extend_from_slice(b"the quick brown fox jumps over the lazy dog ");
        text.extend_from_slice(format!("{} ", i * 7919).as_bytes());
    }
    text
}

#[test]
fn bit_widths_of_the_levels() {
    assert_eq!(opt_bitsize(Optimize::Ultra), 15);
    assert_eq!(opt_bitsize(Optimize::High), 14);
    assert_eq!(opt_bitsize(Optimize::Average), 12);
    assert_eq!(opt_bitsize(Optimize::Less), 10);
}

#[test]
fn windows_of_the_levels() {
    assert_eq!(opt_max(Optimize::Ultra), 32767);
    assert_eq!(opt_max(Optimize::High), 16383);
    assert_eq!(opt_max(Optimize::Average), 4095);
    assert_eq!(opt_max(Optimize::Less), 1023);
}

#[test]
fn match_len_stops_at_mismatch_cap_and_end() {
    let data = b"abcabcabx";
    assert_eq!(match_len(data, 0, 3, 255), 5);
    assert_eq!(match_len(data, 0, 3, 4), 4);
    assert_eq!(match_len(data, 1, 3, 255), 0);
    let run = [7u8; 10];
    assert_eq!(match_len(&run, 0, 1, 255), 9);
}

#[test]
fn longest_match_prefers_the_nearest_of_equal_runs() {
    // "ab" occurs at 0 and at 3; at position 6 both give a run of two bytes.
    let data = b"abxabyab";
    assert_eq!(longest_match(data, 6, 255, 2), (3, 2));
}

#[test]
fn longest_match_takes_the_longer_run_farther_back() {
    let data = b"abcdxabyabcd";
    assert_eq!(longest_match(data, 8, 255, 2), (8, 4));
}

#[test]
fn longest_match_below_the_least_is_no_match() {
    let data = b"abxaby";
    assert_eq!(longest_match(data, 3, 255, 3), (0, 0));
    assert_eq!(longest_match(data, 0, 255, 2), (0, 0));
}

#[test]
fn lz77_literals_are_zero_and_the_byte() {
    let mut out = Vec::new();
    Lz77::new(b"abc".to_vec()).compress(&mut out, Optimize::Less).unwrap();
    assert_eq!(out, vec![0, b'a', 0, b'b', 0, b'c']);
}

#[test]
fn lz77_writes_an_overlapping_run_as_one_pointer() {
    let mut out = Vec::new();
    Lz77::new(vec![b'a'; 6]).compress(&mut out, Optimize::Less).unwrap();
    assert_eq!(out, vec![0, b'a', 1, 5]);
}

#[test]
fn lz77_appends_to_what_the_writer_holds() {
    let mut out = vec![9u8, 9];
    Lz77::new(b"a".to_vec()).compress(&mut out, Optimize::Less).unwrap();
    assert_eq!(out, vec![9, 9, 0, b'a']);
}

#[test]
fn lz77_expands_a_self_overlapping_pointer() {
    let mut out = Vec::new();
    Lz77::new(vec![0, b'x', 0, b'y', 2, 5]).decompress(&mut out, Optimize::Less).unwrap();
    assert_eq!(out, b"xyxyxyx".to_vec());
}

#[test]
fn lz77_passes_over_a_trailing_byte() {
    let mut out = Vec::new();
    Lz77::new(vec![0, b'x', 1]).decompress(&mut out, Optimize::Less).unwrap();
    assert_eq!(out, b"x".to_vec());
}

#[test]
fn lz77_refuses_a_pointer_before_the_start() {
    let mut out = vec![1u8];
    let done = Lz77::new(vec![0, b'x', 2, 1]).decompress(&mut out, Optimize::Less);
    assert!(matches!(done, Err(LzErr::InvalidPointer)));
    assert_eq!(out, vec![1u8]);
}

#[test]
fn lz77_round_trips() {
    assert_eq!(lz77_round_trip(b""), b"".to_vec());
    assert_eq!(lz77_round_trip(b"a"), b"a".to_vec());
    assert_eq!(lz77_round_trip(b"ab"), b"ab".to_vec());
    let text = sample_text();
    assert_eq!(lz77_round_trip(&text), text);
    let run = vec![0x55u8; 10_000];
    assert_eq!(lz77_round_trip(&run), run);
}

#[test]
fn lzss_literal_is_a_set_flag_and_the_byte() {
    // flag 1, then 0x61 least significant bit first: 1 1000 0110 -> 0xC3, 0x00
    let mut out = Vec::new();
    LzSS::new(b"a".to_vec()).compress(&mut out, Optimize::Less).unwrap();
    assert_eq!(out, vec![0xC3, 0x00]);
}

#[test]
fn lzss_of_nothing_is_nothing() {
    for level in LEVELS {
        let mut out = Vec::new();
        LzSS::new(Vec::new()).compress(&mut out, level).unwrap();
        assert_eq!(out, Vec::<u8>::new());
    }
}

#[test]
fn lzss_pointer_holds_distance_then_length() {
    // Ten bytes 'a' at width 10: literal 'a', then pointer (1, 9).
    // bits: 1 10000110, 0 1000000000 1001000000, then 2 bits of padding
    let mut out = Vec::new();
    LzSS::new(vec![b'a'; 10]).compress(&mut out, Optimize::Less).unwrap();
    assert_eq!(out, vec![0xC3, 0x04, 0x90, 0x00]);
    let mut back = Vec::new();
    LzSS::new(out).decompress(&mut back, Optimize::Less).unwrap();
    assert_eq!(back, vec![b'a'; 10]);
}

#[test]
fn lzss_keeps_a_short_match_as_literals() {
    // At width 12 a match must have three bytes; "ab" twice stays literal: 4 * 9 bits.
    let mut out = Vec::new();
    LzSS::new(b"abab".to_vec()).compress(&mut out, Optimize::Average).unwrap();
    assert_eq!(out.len(), 5);
    // At width 10 two bytes are enough: 2 literals and a pointer, 18 + 21 bits.
    let mut out = Vec::new();
    LzSS::new(b"abab".to_vec()).compress(&mut out, Optimize::Less).unwrap();
    assert_eq!(out.len(), 5);
    assert_eq!(out[2] & 0b100, 0);
}

#[test]
fn lzss_without_repeats_is_all_literals() {
    let data: Vec<u8> = (0u8..=255).collect();
    for level in LEVELS {
        let mut out = Vec::new();
        LzSS::new(data.clone()).compress(&mut out, level).unwrap();
        assert_eq!(out.len(), (256 * 9 + 7) / 8);
        // the flag of token i is bit 9 * i
        for i in 0..256usize {
            assert_eq!((out[9 * i / 8] >> (9 * i % 8)) & 1, 1);
        }
    }
}

#[test]
fn lzss_round_trips_at_every_level() {
    let text = sample_text();
    let run = vec![0xAAu8; 10_000];
    for level in LEVELS {
        assert_eq!(lzss_round_trip(b"", level), b"".to_vec());
        assert_eq!(lzss_round_trip(b"z", level), b"z".to_vec());
        assert_eq!(lzss_round_trip(b"ab", level), b"ab".to_vec());
        assert_eq!(lzss_round_trip(&text, level), text);
        assert_eq!(lzss_round_trip(&run, level), run);
    }
}

#[test]
fn lzss_refuses_a_pointer_before_the_start() {
    // pointer (1, 1) at width 10 with no output yet: 0 1000000000 1000000000
    let mut out = vec![5u8];
    let done = LzSS::new(vec![0x02, 0x08, 0x00]).decompress(&mut out, Optimize::Less);
    assert!(matches!(done, Err(LzErr::InvalidPointer)));
    assert_eq!(out, vec![5u8]);
}

#[test]
fn lzss_refuses_distance_zero() {
    // literal 'a', then pointer (0, 1) at width 10
    // bits: 1 10000110 0 0000000000 1000000000
    let mut out = Vec::new();
    let done = LzSS::new(vec![0xC3, 0x00, 0x00, 0x10]).decompress(&mut out, Optimize::Less);
    assert!(matches!(done, Err(LzErr::InvalidPointer)));
}

#[test]
fn lzss_pointer_of_length_zero_stands_for_nothing() {
    // literal 'a', then pointer (0, 0) at width 10
    let mut out = Vec::new();
    LzSS::new(vec![0xC3, 0x00, 0x00, 0x00]).decompress(&mut out, Optimize::Less).unwrap();
    assert_eq!(out, b"a".to_vec());
}

#[test]
fn lzss_refuses_a_stream_that_ends_inside_a_pointer() {
    // a clear flag and only 15 more bits, at width 10
    let mut out = Vec::new();
    let done = LzSS::new(vec![0x02, 0x08]).decompress(&mut out, Optimize::Less);
    assert!(matches!(done, Err(LzErr::IO(_))));
    assert_eq!(out, Vec::<u8>::new());
}

#[test]
fn lzss_takes_a_last_byte_as_padding() {
    let mut out = Vec::new();
    LzSS::new(vec![0xFF]).decompress(&mut out, Optimize::Less).unwrap();
    assert_eq!(out, Vec::<u8>::new());
}

#[test]
fn codecs_through_the_common_interface() {
    assert_eq!(<Lz77 as Compressor>::name(), "lz77");
    assert_eq!(<LzSS as Compressor>::name(), "lzss");
    let text = sample_text();
    let packed = <LzSS as Compressor>::compress_vec(text.clone(), Optimize::High).unwrap();
    assert!(packed.len() < text.len());
    assert_eq!(<LzSS as Compressor>::deccompress_vec(packed, Optimize::High).unwrap(), text);
    let packed = <Lz77 as Compressor>::compress_vec(text.clone(), Optimize::High).unwrap();
    assert_eq!(<Lz77 as Compressor>::deccompress_vec(packed, Optimize::High).unwrap(), text);
    assert!(<Lz77 as Compressor>::deccompress_vec(vec![3, 1], Optimize::High).is_err());
}

#[test]
fn lz77_is_shown_in_readable_form() {
    let shown = Lz77::new(b"abcabcabc".to_vec()).debug_compress().unwrap();
    assert_eq!(shown, "(0)a (0)b (0)c (3, 6):(abcabc) ");
    assert_eq!(Lz77::new(Vec::new()).debug_compress().unwrap(), "");
    let run = Lz77::new(vec![b'z'; 300]).debug_compress().unwrap();
    assert_eq!(run, format!("(0)z (1, 255):({}) (1, 44):({}) ", "z".repeat(255), "z".repeat(44)));
}

#[test]
fn lzss_is_shown_in_readable_form_at_the_average_level() {
    let shown = LzSS::new(b"abcabcabc".to_vec()).debug_compress().unwrap();
    assert_eq!(shown, "(1)a (1)b (1)c (0)(3, 6):(abcabc) ");
    // two bytes are no match at width 12
    let shown = LzSS::new(b"abab".to_vec()).debug_compress().unwrap();
    assert_eq!(shown, "(1)a (1)b (1)a (1)b ");
    let run = LzSS::new(vec![b'z'; 5000]).debug_compress().unwrap();
    assert_eq!(run, format!("(1)z (0)(1, 4095):({}) (0)(1, 904):({}) ", "z".repeat(4095), "z".repeat(904)));
}

#[test]
fn bytes_are_shown_as_the_characters_with_their_numbers() {
    let shown = Lz77::new(vec![0xe9, 0x00]).debug_compress().unwrap();
    assert_eq!(shown, "(0)\u{e9} (0)\u{0} ");
}

#[test]
fn codec_lengths_and_matches_of_the_codecs() {
    let lz = Lz77::new(b"abcabcabx".to_vec());
    assert_eq!(lz.len(), 9);
    assert_eq!(lz.match_len(0, 3), 5);
    assert_eq!(lz.longest_match(3), (3, 5));
    assert_eq!(lz.longest_match(1), (0, 0));
    let long = Lz77::new(vec![1u8; 600]);
    assert_eq!(long.match_len(0, 1), 255);
    assert_eq!(long.longest_match(300), (1, 255));
    let ss = LzSS::new(b"abcabcabx".to_vec());
    assert_eq!(ss.len(), 9);
    assert_eq!(ss.match_len(0, 3, 4), 4);
    assert_eq!(ss.longest_match(3, 12, 4095), (3, 5));
    assert_eq!(ss.longest_match(3, 24, 4095), (0, 0));
    assert_eq!(ss.longest_match(3, 12, 2), (0, 0));
}

#[test]
fn a_window_reaches_no_farther_than_its_width() {
    // "abcd" once, then 1100 bytes without it, then "abcd" again: at width
    // 10 the first is out of reach, at width 12 it is not
    let mut data = b"abcd".to_vec();
    data.extend((0..1100u32).map(|i| b'e' + (i % 3) as u8 + 3 * ((i / 3) % 2) as u8));
    let at = data.len();
    data.extend_from_slice(b"abcd");
    let codec = LzSS::new(data.clone());
    assert_eq!(codec.longest_match(at, 12, 4095), (1104, 4));
    assert_eq!(codec.longest_match(at, 10, 1023).1 < 4, true);
    for level in LEVELS {
        assert_eq!(lzss_round_trip(&data, level), data);
    }
}

#[test]
fn a_match_is_none_only_where_every_run_is_too_short() {
    // at width 12 a match has three bytes: the run of two at distance 2 is none
    let codec = LzSS::new(b"abab".to_vec());
    assert_eq!(codec.longest_match(2, 12, 4095), (0, 0));
    // at width 10 it has two
    assert_eq!(codec.longest_match(2, 10, 1023), (2, 2));
    // of two runs of the same length the nearer one
    let codec = LzSS::new(b"abcxabcyabc".to_vec());
    assert_eq!(codec.longest_match(8, 12, 4095), (4, 3));
    // the farther one where it is longer
    let codec = LzSS::new(b"abcdxabcyabcd".to_vec());
    assert_eq!(codec.longest_match(9, 12, 4095), (9, 4));
    assert_eq!(codec.longest_match(0, 12, 4095), (0, 0));
}
