use shufti_matcher::arch::bitmask_16b;
use shufti_matcher::builder::build_table;
use shufti_matcher::scan::ShuftiMatcher;
use shufti_matcher::table::ShuftiTable;

/// A matcher for tab, carriage return and line feed, with tables written out
/// by hand.
struct WsMatcher;

impl ShuftiMatcher for WsMatcher {
    const SET: &'static str = "\t\r\n";
    const NEEDLE_COUNT: usize = 3;

    fn table() -> ShuftiTable {
        let needles: &[u8] = b"\t\r\n";
        let mut low_tab = [0u8; 16];
        let mut high_tab = [0u8; 16];
        for (i, &b) in needles.iter().enumerate() {
            let bit = 1u8 << i;
            low_tab[(b & 0x0f) as usize] |= bit;
            high_tab[(b >> 4) as usize] |= bit;
        }
        ShuftiTable {
            low_tab,
            high_tab,
            bit_mask: (1u32 << needles.len()).wrapping_sub(1) as u8,
        }
    }
}

/// A matcher for a set of seventeen bytes that holds NUL, built by packing.
struct UrlMatcher;

impl ShuftiMatcher for UrlMatcher {
    const SET: &'static str = "\0\t\n\r #/:<>?@[\\]^|";
    const NEEDLE_COUNT: usize = 17;

    fn table() -> ShuftiTable {
        build_table(Self::SET.as_bytes()).unwrap()
    }
}

#[test]
fn test_match_16b_none() {
    let chunk = *b"abcdefghijklmnop";
    assert_eq!(WsMatcher::match_16b(&chunk), 0);
}

#[test]
fn test_match_16b_first() {
    let chunk = *b"\tbcdefghijklmnop";
    let mask = WsMatcher::match_16b(&chunk);
    assert_eq!(mask.trailing_zeros(), 0);
}

#[test]
fn test_match_16b_last() {
    let chunk = *b"abcdefghijklmno\n";
    let mask = WsMatcher::match_16b(&chunk);
    assert_eq!(mask.trailing_zeros(), 15);
}

#[test]
fn test_find_first_empty() {
    assert_eq!(WsMatcher::find_first(b""), None);
}

#[test]
fn test_find_first_no_match() {
    assert_eq!(WsMatcher::find_first(b"hello world"), None);
}

#[test]
fn test_find_first_exact_16() {
    let hay = b"abcdefghijklmno\n";
    assert_eq!(WsMatcher::find_first(hay), Some(15));
}

#[test]
fn test_find_first_crosses_chunk_boundary() {
    let hay = b"abcdefghijklmnopqrs\tuvwxyz";
    assert_eq!(WsMatcher::find_first(hay), Some(19));
}

#[test]
fn test_find_first_epilogue_only() {
    let hay = b"abcde\r";
    assert_eq!(WsMatcher::find_first(hay), Some(5));
}

#[test]
fn test_find_first_first_byte() {
    let hay = b"\nhello";
    assert_eq!(WsMatcher::find_first(hay), Some(0));
}

#[test]
fn find_first_sixteen_bytes_without_member() {
    assert_eq!(WsMatcher::find_first(b"abcdefghijklmnop"), None);
}

#[test]
fn find_first_first_byte_of_full_chunk() {
    assert_eq!(WsMatcher::find_first(b"\tbcdefghijklmnop"), Some(0));
}

#[test]
fn match_16b_exact_masks() {
    assert_eq!(WsMatcher::match_16b(b"\tbcdefghijklmnop"), 0x0001);
    assert_eq!(WsMatcher::match_16b(b"abcdefghijklmno\n"), 0x8000);
    assert_eq!(WsMatcher::match_16b(b"a\rc\tefghijk\nmnop"), 0x080a);
}

#[test]
fn find_first_nul_needle_in_epilogue() {
    assert_eq!(UrlMatcher::find_first(b"null\0byte"), Some(4));
}

#[test]
fn find_first_ignores_zero_padding_when_nul_is_needle() {
    assert_eq!(UrlMatcher::find_first(b"nullbyte"), None);
    assert_eq!(UrlMatcher::find_first(b"abcdefghijklmnopqrstu"), None);
    assert_eq!(UrlMatcher::find_first(b"abcdefghijklmnopqrst\0"), Some(20));
}

#[test]
fn find_first_returns_least_index() {
    assert_eq!(WsMatcher::find_first(b"ab\ncd\tef\r"), Some(2));
    assert_eq!(WsMatcher::find_first(b"abcdefghijklmnopqrstuvwxyz012345\r6\n"), Some(32));
}

#[test]
fn find_first_unchanged_by_appended_non_members() {
    let hays: [&[u8]; 4] = [b"", b"abc", b"ab\tcd", b"abcdefghijklmnopqrs\tuvwxyz"];
    for hay in hays {
        let expected = WsMatcher::find_first(hay);
        let mut padded = hay.to_vec();
        for n in 0..40 {
            assert_eq!(WsMatcher::find_first(&padded), expected);
            padded.push(b'a' + (n % 26) as u8);
        }
    }
}

#[test]
fn table_method_agrees_with_back_end() {
    let t = WsMatcher::table();
    let chunk = *b"ab\tdefg\rijklmno\n";
    assert_eq!(t.bitmask_16b(&chunk), 0x8084);
    assert_eq!(bitmask_16b(&t.low_tab, &t.high_tab, t.bit_mask, &chunk), 0x8084);
    assert_eq!(t.find_first(&chunk), Some(2));
}

#[test]
fn bitmask_respects_bit_mask() {
    let t = WsMatcher::table();
    let chunk = *b"\t\r\n\t\r\n\t\r\n\t\r\n\t\r\n\t";
    assert_eq!(bitmask_16b(&t.low_tab, &t.high_tab, 0b111, &chunk), 0xffff);
    assert_eq!(bitmask_16b(&t.low_tab, &t.high_tab, 0b001, &chunk), 0b1001_0010_0100_1001);
    assert_eq!(bitmask_16b(&t.low_tab, &t.high_tab, 0, &chunk), 0);
}

#[test]
fn membership_of_every_byte_in_every_lane() {
    let sets: [&[u8]; 3] = [b"\t\r\n", b"abc", b"\0\t\n\r #/:<>?@[\\]^|"];
    for set in sets {
        let t = build_table(set).unwrap();
        for c in 0..=255u8 {
            for lane in 0..16usize {
                let filler = if set.contains(&b'x') { b'y' } else { b'x' };
                let mut chunk = [filler; 16];
                chunk[lane] = c;
                let mask = t.bitmask_16b(&chunk);
                assert_eq!(mask & (1 << lane) != 0, set.contains(&c));
                if !set.contains(&c) {
                    assert_eq!(mask, 0);
                } else {
                    assert_eq!(mask, 1 << lane);
                }
            }
        }
    }
}
