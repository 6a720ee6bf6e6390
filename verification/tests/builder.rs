use shufti_matcher::builder::build_shufti_table_slow;
use shufti_matcher::builder::build_shufti_tables;
use shufti_matcher::builder::build_table;
use shufti_matcher::builder::contains_byte;
use shufti_matcher::builder::find_duplicate;
use shufti_matcher::builder::is_safe;
use shufti_matcher::builder::BuildError;

#[test]
fn test() {
    let set = "abc";
    let t = build_table(set.as_bytes()).unwrap();
    assert_eq!(set.len(), 3usize);
    assert_eq!(t.low_tab, [0u8, 1u8, 2u8, 4u8, 0u8, 0u8, 0u8, 0u8, 0u8, 0u8, 0u8, 0u8, 0u8, 0u8, 0u8, 0u8]);
    assert_eq!(t.high_tab, [0u8, 0u8, 0u8, 0u8, 0u8, 0u8, 7u8, 0u8, 0u8, 0u8, 0u8, 0u8, 0u8, 0u8, 0u8, 0u8]);
    assert_eq!(t.bit_mask, 7u8);
}

#[test]
fn fast_tables_of_abc() {
    let (low_tab, high_tab, bit_mask) = build_shufti_tables(b"abc");
    assert_eq!(low_tab[1], 0b001);
    assert_eq!(low_tab[2], 0b010);
    assert_eq!(low_tab[3], 0b100);
    assert_eq!(high_tab[6], 0b0000_0111);
    assert_eq!(bit_mask, 0b0000_0111);
}

#[test]
fn fast_tables_of_whitespace() {
    let (low_tab, high_tab, bit_mask) = build_shufti_tables(b"\t\r\n");
    let mut low = [0u8; 16];
    low[0x9] = 1;
    low[0xd] = 2;
    low[0xa] = 4;
    let mut high = [0u8; 16];
    high[0] = 7;
    assert_eq!(low_tab, low);
    assert_eq!(high_tab, high);
    assert_eq!(bit_mask, 7);
}

#[test]
fn fast_tables_of_no_needle_and_of_eight() {
    assert_eq!(build_shufti_tables(b""), ([0u8; 16], [0u8; 16], 0));
    let (low_tab, high_tab, bit_mask) = build_shufti_tables(b"[]{}<>()");
    assert_eq!(bit_mask, 0xff);
    let set = b"[]{}<>()";
    for (i, &c) in set.iter().enumerate() {
        assert_ne!(low_tab[(c & 0x0f) as usize] & (1 << i), 0);
        assert_ne!(high_tab[(c >> 4) as usize] & (1 << i), 0);
    }
    assert_eq!(low_tab[0xb], 0b0000_0101);
    assert_eq!(high_tab[0x5], 0b0000_0011);
}

#[test]
fn duplicate_byte_fails() {
    assert_eq!(build_table(b"aba").err(), Some(BuildError::DuplicateByte(b'a')));
    assert_eq!(build_table(b"abcb").err(), Some(BuildError::DuplicateByte(b'b')));
    assert_eq!(build_table(b"xbcbcx").err(), Some(BuildError::DuplicateByte(b'x')));
    assert_eq!(build_table(b"0123456789abcdef0").err(), Some(BuildError::DuplicateByte(b'0')));
}

#[test]
fn empty_set_fails() {
    assert_eq!(build_table(b"").err(), Some(BuildError::EmptySet));
}

#[test]
fn diagonal_of_nine_exhausts_the_columns() {
    let set = [0x00u8, 0x11, 0x22, 0x33, 0x44, 0x55, 0x66, 0x77, 0x88];
    assert_eq!(build_shufti_table_slow(&set), None);
    assert_eq!(build_table(&set).err(), Some(BuildError::PackingExhausted));
}

#[test]
fn ninth_needle_may_share_a_column() {
    let set = [0x00u8, 0x11, 0x22, 0x33, 0x44, 0x55, 0x66, 0x77, 0x01];
    let low = [1u8, 3, 4, 8, 16, 32, 64, 128, 0, 0, 0, 0, 0, 0, 0, 0];
    let high = [1u8, 2, 4, 8, 16, 32, 64, 128, 0, 0, 0, 0, 0, 0, 0, 0];
    assert_eq!(build_shufti_table_slow(&set), Some((low, high, 255)));
    let t = build_table(&set).unwrap();
    assert_eq!((t.low_tab, t.high_tab, t.bit_mask), (low, high, 255));
}

#[test]
fn packing_shares_columns_in_order() {
    let mut low = [0u8; 16];
    let mut high = [0u8; 16];
    low[1] = 1;
    low[2] = 1;
    high[6] = 1;
    assert_eq!(build_shufti_table_slow(&[0x61, 0x62]), Some((low, high, 1)));
    low[2] = 2;
    high[7] = 2;
    assert_eq!(build_shufti_table_slow(&[0x61, 0x72]), Some((low, high, 3)));
    assert_eq!(build_shufti_table_slow(&[]), Some(([0u8; 16], [0u8; 16], 0)));
}

#[test]
fn packing_of_hex_digits() {
    let low = [1u8, 3, 3, 3, 3, 3, 3, 1, 1, 1, 0, 0, 0, 0, 0, 0];
    let high = [0u8, 0, 0, 1, 0, 0, 2, 0, 0, 0, 0, 0, 0, 0, 0, 0];
    assert_eq!(build_shufti_table_slow(b"0123456789abcdef"), Some((low, high, 3)));
}

#[test]
fn packing_of_set_with_nul() {
    let low = [11u8, 0, 0, 2, 0, 0, 0, 0, 0, 1, 5, 16, 52, 17, 20, 6];
    let high = [1u8, 0, 2, 4, 8, 16, 0, 32, 0, 0, 0, 0, 0, 0, 0, 0];
    let t = build_table(b"\0\t\n\r #/:<>?@[\\]^|").unwrap();
    assert_eq!((t.low_tab, t.high_tab, t.bit_mask), (low, high, 63));
}

#[test]
fn no_ghost_byte_in_built_tables() {
    let sets: [&[u8]; 4] = [b"\t\r\n", b"abc", b"0123456789abcdef", b"\0\t\n\r #/:<>?@[\\]^|"];
    for set in sets {
        let t = build_table(set).unwrap();
        for hi in 0..16u8 {
            for lo in 0..16u8 {
                let cell = t.low_tab[lo as usize] & t.high_tab[hi as usize] & t.bit_mask;
                assert_eq!(cell != 0, set.contains(&((hi << 4) | lo)));
            }
        }
    }
}

#[test]
fn safe_column_needs_both_ghosts_among_targets() {
    let mut low = [0u8; 16];
    let mut high = [0u8; 16];
    low[1] = 1;
    high[6] = 1;
    assert!(is_safe(0, 0x62, &[0x61, 0x62], &low, &high));
    assert!(!is_safe(0, 0x72, &[0x61, 0x72], &low, &high));
    assert!(!is_safe(0, 0x72, &[0x61, 0x72, 0x71], &low, &high));
    assert!(is_safe(0, 0x72, &[0x61, 0x72, 0x71, 0x62], &low, &high));
    assert!(is_safe(1, 0x72, &[0x61, 0x72], &low, &high));
}

#[test]
fn contains_and_duplicates() {
    assert!(contains_byte(b"abc", b'c'));
    assert!(!contains_byte(b"abc", b'd'));
    assert!(!contains_byte(b"", 0));
    assert_eq!(find_duplicate(b"abc"), None);
    assert_eq!(find_duplicate(b"abcbc"), Some(b'b'));
    assert_eq!(find_duplicate(b""), None);
}
