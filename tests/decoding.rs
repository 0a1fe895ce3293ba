use bitinfo::config::{find_config_for_name, merge_configs, BitInfo, RegisterMask};
use bitinfo::decode::{prep_decoders, print_bits, smart_decode, Report};
use bitinfo::mask::{InflatedRegisterMask, MaskError};
use bitinfo::request::{decode_request, split_segments};
use bitinfo::format::PrintPreference;

fn field(start: u32, end: Option<u32>, width: Option<u32>) -> RegisterMask {
    RegisterMask {
        start,
        end,
        width,
        description: None,
        negated: None,
        preferred_format: None,
        patterns: None,
    }
}

fn leaf(fields: Vec<(String, RegisterMask)>) -> BitInfo {
    BitInfo {
        description: None,
        bit_width: None,
        preferred_format: None,
        registers: None,
        fields: Some(fields),
    }
}

fn group(children: Vec<(String, BitInfo)>) -> BitInfo {
    BitInfo {
        description: None,
        bit_width: None,
        preferred_format: None,
        registers: Some(children),
        fields: None,
    }
}

fn path(segs: &[&str]) -> Vec<String> {
    segs.iter().map(|s| s.to_string()).collect()
}

fn flag_config(flag: RegisterMask) -> Vec<(String, BitInfo)> {
    let b = leaf(vec![("flag".to_string(), flag)]);
    vec![("a".to_string(), group(vec![("b".to_string(), b)]))]
}

fn values(r: &Report) -> Vec<(String, String)> {
    r.fields.iter().map(|f| (f.name.clone(), f.value.clone())).collect()
}

#[test]
fn flag_bit_of_five_renders_hex_one() {
    let config = flag_config(field(0, None, Some(1)));
    let r = smart_decode(5, &path(&["a", "b"]), &config);
    assert_eq!(values(&r), vec![("flag".to_string(), "0x1".to_string())]);
    assert_eq!(r.header.name, "a.b 0x5 ->");
    assert_eq!(r.header.value, "");
    assert!(r.skipped.is_empty());
}

#[test]
fn flag_pattern_renders_its_text() {
    let mut f = field(0, None, Some(1));
    f.patterns = Some(vec![("1".to_string(), "enabled".to_string())]);
    let config = flag_config(f);
    let r = smart_decode(5, &path(&["a", "b"]), &config);
    assert_eq!(values(&r), vec![("flag".to_string(), "enabled".to_string())]);
}

#[test]
fn bare_number_lists_bits() {
    let r = decode_request("42", true, &Vec::new()).unwrap();
    assert_eq!(r.header.name, "42");
    assert_eq!(r.header.value, "42 0x2A 0b101010");
    let lines: Vec<(String, u32)> = r.fields.iter().map(|f| (f.value.clone(), f.sort)).collect();
    assert_eq!(
        lines,
        vec![("1th set".to_string(), 1), ("3th set".to_string(), 3), ("5th set".to_string(), 5)]
    );
    assert!(r.fields.iter().all(|f| f.name.is_empty()));
}

#[test]
fn bare_number_without_bit_listing() {
    let r = decode_request("42", false, &Vec::new()).unwrap();
    assert_eq!(r.header.value, "42 0x2A 0b101010");
    assert!(r.fields.is_empty());
}

#[test]
fn unknown_path_falls_back_to_bits() {
    let config = flag_config(field(0, None, Some(1)));
    let r = smart_decode(5, &path(&["x", "y"]), &config);
    assert_eq!(r.header.name, "5");
    assert_eq!(r.header.value, "5 0x5 0b101");
    assert!(r.fields.is_empty());
    let r2 = decode_request("x.y.5", true, &config).unwrap();
    assert_eq!(r2.header.value, "5 0x5 0b101");
    assert!(r2.fields.is_empty());
}

#[test]
fn end_without_width_gives_width() {
    let m = InflatedRegisterMask::try_from(&field(4, Some(8), None), &"f".to_string(), PrintPreference::Hex)
        .unwrap();
    assert_eq!(m.width, 4);
    assert_eq!(m.base_offset, 4);
    assert_eq!(m.extract(0xABCD), 0xC);
}

#[test]
fn width_wins_over_end() {
    let m = InflatedRegisterMask::try_from(&field(4, Some(2), Some(3)), &"f".to_string(), PrintPreference::Hex)
        .unwrap();
    assert_eq!(m.width, 3);
}

#[test]
fn no_end_no_width_is_one_bit() {
    let m = InflatedRegisterMask::try_from(&field(7, None, None), &"f".to_string(), PrintPreference::Hex)
        .unwrap();
    assert_eq!(m.width, 1);
    assert_eq!(m.extract(0x80), 1);
    assert_eq!(m.extract(0x7F), 0);
}

#[test]
fn end_before_start_is_an_error() {
    let r = InflatedRegisterMask::try_from(&field(8, Some(4), None), &"f".to_string(), PrintPreference::Hex);
    assert_eq!(r.err(), Some(MaskError::EndBeforeStart));
}

#[test]
fn field_past_bit_31_is_an_error() {
    let r = InflatedRegisterMask::try_from(&field(30, None, Some(3)), &"f".to_string(), PrintPreference::Hex);
    assert_eq!(r.err(), Some(MaskError::TooWide));
    let r2 = InflatedRegisterMask::try_from(&field(u32::MAX, None, Some(u32::MAX)), &"f".to_string(), PrintPreference::Hex);
    assert_eq!(r2.err(), Some(MaskError::TooWide));
}

#[test]
fn mask_extracts_all_ones_from_itself() {
    for (start, width) in [(0u32, 1u32), (4, 4), (0, 32), (31, 1), (3, 29), (16, 8)] {
        let m = InflatedRegisterMask::try_from(&field(start, None, Some(width)), &"f".to_string(), PrintPreference::Hex)
            .unwrap();
        let mask: u32 = (((1u64 << width) - 1) << start) as u32;
        assert_eq!(m.extract(mask) as u64, (1u64 << width) - 1);
        assert_eq!(m.extract(!mask), 0);
        assert_eq!(m.extract(u32::MAX) as u64, (1u64 << width) - 1);
    }
}

#[test]
fn zero_width_field_reads_zero() {
    let m = InflatedRegisterMask::try_from(&field(32, None, Some(0)), &"f".to_string(), PrintPreference::Hex)
        .unwrap();
    assert_eq!(m.extract(u32::MAX), 0);
    let m0 = InflatedRegisterMask::try_from(&field(0, None, Some(0)), &"f".to_string(), PrintPreference::Hex)
        .unwrap();
    assert_eq!(m0.extract(u32::MAX), 0);
}

#[test]
fn plain_rendering_repeats() {
    let m = InflatedRegisterMask::try_from(&field(4, None, Some(4)), &"f".to_string(), PrintPreference::Bin)
        .unwrap();
    let a = m.format_value(0x35);
    let b = m.format_value(0x35);
    let c = m.format_value(0xF3A);
    assert_eq!(a.value, "0b11");
    assert_eq!(a.value, b.value);
    assert_eq!(a.value, c.value);
}

#[test]
fn pattern_keys_in_any_base_and_bad_ones_dropped() {
    let mut f = field(0, None, Some(4));
    f.patterns = Some(vec![
        ("0x3".to_string(), "three".to_string()),
        ("0b101".to_string(), "five".to_string()),
        ("junk".to_string(), "never".to_string()),
        ("-1".to_string(), "negative".to_string()),
        ("0o7".to_string(), "seven".to_string()),
    ]);
    let m = InflatedRegisterMask::try_from(&f, &"f".to_string(), PrintPreference::Decimal).unwrap();
    assert_eq!(m.patterns.len(), 3);
    assert_eq!(m.format_value(3).value, "three");
    assert_eq!(m.format_value(5).value, "five");
    assert_eq!(m.format_value(7).value, "seven");
    assert_eq!(m.format_value(9).value, "9");
}

#[test]
fn later_pattern_for_same_value_wins() {
    let mut f = field(0, None, Some(4));
    f.patterns = Some(vec![("1".to_string(), "first".to_string()), ("0x1".to_string(), "second".to_string())]);
    let m = InflatedRegisterMask::try_from(&f, &"f".to_string(), PrintPreference::Hex).unwrap();
    assert_eq!(m.format_value(1).value, "second");
}

#[test]
fn field_format_overrides_register_format() {
    let mut f = field(0, None, Some(8));
    f.preferred_format = Some("DEC".to_string());
    f.description = Some("low byte".to_string());
    let g = field(8, None, Some(8));
    let mut reg = leaf(vec![("lo".to_string(), f), ("hi".to_string(), g)]);
    reg.preferred_format = Some("binary".to_string());
    let config = vec![("r".to_string(), reg)];
    let r = smart_decode(0x0312, &path(&["r"]), &config);
    assert_eq!(r.header.name, "r 0b1100010010 ->");
    assert_eq!(values(&r), vec![("lo".to_string(), "18".to_string()), ("hi".to_string(), "0b11".to_string())]);
    assert_eq!(r.fields[0].description, Some("low byte".to_string()));
    assert_eq!(r.fields[0].to_line(), "\tlo =\t18 (low byte)");
    assert_eq!(r.fields[1].to_line(), "\thi =\t0b11");
}

#[test]
fn fields_come_out_by_bit_position() {
    let fields = vec![
        ("top".to_string(), field(24, None, Some(8))),
        ("low".to_string(), field(0, None, Some(4))),
        ("mid".to_string(), field(8, None, Some(8))),
        ("nib".to_string(), field(4, Some(8), None)),
    ];
    let config = vec![("r".to_string(), leaf(fields))];
    let r = smart_decode(0xAABBCCDD, &path(&["r"]), &config);
    let sorts: Vec<u32> = r.fields.iter().map(|f| f.sort).collect();
    assert_eq!(sorts, vec![0, 4, 8, 24]);
    assert_eq!(
        values(&r),
        vec![
            ("low".to_string(), "0xD".to_string()),
            ("nib".to_string(), "0xD".to_string()),
            ("mid".to_string(), "0xCC".to_string()),
            ("top".to_string(), "0xAA".to_string()),
        ]
    );
}

#[test]
fn bad_fields_are_skipped_and_reported() {
    let fields = vec![
        ("ok".to_string(), field(0, None, Some(2))),
        ("backwards".to_string(), field(9, Some(3), None)),
        ("wide".to_string(), field(28, None, Some(8))),
    ];
    let config = vec![("r".to_string(), leaf(fields))];
    let r = smart_decode(3, &path(&["r"]), &config);
    assert_eq!(values(&r), vec![("ok".to_string(), "0x3".to_string())]);
    let skipped: Vec<(String, MaskError)> = r.skipped.iter().map(|e| (e.name.clone(), e.error)).collect();
    assert_eq!(
        skipped,
        vec![("backwards".to_string(), MaskError::EndBeforeStart), ("wide".to_string(), MaskError::TooWide)]
    );
    let prepared = prep_decoders(&config[0].1);
    assert_eq!(prepared.len(), 3);
}

#[test]
fn register_without_fields_gives_header_only() {
    let mut reg = leaf(Vec::new());
    reg.fields = None;
    let config = vec![("r".to_string(), reg)];
    let r = smart_decode(10, &path(&["r"]), &config);
    assert_eq!(r.header.name, "r 0xA ->");
    assert!(r.fields.is_empty());
}

#[test]
fn resolution_ignores_trailing_segments() {
    let config = flag_config(field(0, None, Some(1)));
    let a = find_config_for_name(&path(&["a", "b"]), &config).unwrap();
    let b = find_config_for_name(&path(&["a", "b", "c", "d"]), &config).unwrap();
    assert!(std::ptr::eq(a, b));
    let r = smart_decode(1, &path(&["a", "b", "zzz"]), &config);
    assert_eq!(values(&r), vec![("flag".to_string(), "0x1".to_string())]);
    assert_eq!(r.header.name, "a.b.zzz 0x1 ->");
}

#[test]
fn resolution_fails_on_empty_or_short_paths() {
    let config = flag_config(field(0, None, Some(1)));
    assert!(find_config_for_name(&Vec::new(), &config).is_none());
    assert!(find_config_for_name(&path(&["a"]), &config).is_none());
    assert!(find_config_for_name(&path(&["b"]), &config).is_none());
    assert!(find_config_for_name(&path(&["A", "b"]), &config).is_none());
}

#[test]
fn empty_children_make_a_register() {
    let mut reg = leaf(vec![("f".to_string(), field(0, None, Some(4)))]);
    reg.registers = Some(Vec::new());
    let config = vec![("r".to_string(), reg)];
    let r = smart_decode(0x2F, &path(&["r", "more"]), &config);
    assert_eq!(values(&r), vec![("f".to_string(), "0xF".to_string())]);
}

#[test]
fn farther_document_wins_on_merge() {
    let mut base = vec![
        ("shared".to_string(), leaf(vec![("near".to_string(), field(0, None, Some(1)))])),
        ("near_only".to_string(), leaf(Vec::new())),
    ];
    let later = vec![
        ("shared".to_string(), leaf(vec![("far".to_string(), field(1, None, Some(1)))])),
        ("far_only".to_string(), leaf(Vec::new())),
    ];
    merge_configs(&mut base, later);
    let r = smart_decode(2, &path(&["shared"]), &base);
    assert_eq!(values(&r), vec![("far".to_string(), "0x1".to_string())]);
    assert!(find_config_for_name(&path(&["near_only"]), &base).is_some());
    assert!(find_config_for_name(&path(&["far_only"]), &base).is_some());
}

#[test]
fn request_separators_and_bad_numbers() {
    assert_eq!(split_segments("a:b/c.0x10"), vec!["a", "b", "c", "0x10"]);
    assert_eq!(split_segments("plain"), vec!["plain"]);
    assert_eq!(split_segments("a..b"), vec!["a", "", "b"]);
    assert_eq!(split_segments(""), vec![""]);
    let config = flag_config(field(0, None, Some(1)));
    assert!(decode_request("a.b.zz", false, &config).is_none());
    assert!(decode_request("a.b.", false, &config).is_none());
    assert!(decode_request("nope", false, &config).is_none());
    assert!(decode_request("-3", false, &config).is_none());
    let r = decode_request("a/b:0b11", false, &config).unwrap();
    assert_eq!(values(&r), vec![("flag".to_string(), "0x1".to_string())]);
    assert_eq!(r.header.name, "a.b 0x3 ->");
}

#[test]
fn bit_listing_of_zero_and_top_bit() {
    let r = print_bits(0, true);
    assert_eq!(r.header.value, "0 0x0 0b0");
    assert!(r.fields.is_empty());
    let top = print_bits(0x8000_0000, true);
    let lines: Vec<String> = top.fields.iter().map(|f| f.value.clone()).collect();
    assert_eq!(lines, vec!["31th set".to_string()]);
    assert_eq!(top.header.value, "2147483648 0x80000000 0b10000000000000000000000000000000");
    let all = print_bits(u32::MAX, true);
    assert_eq!(all.fields.len(), 32);
    assert_eq!(all.fields[0].value, "0th set");
}

#[test]
fn repeated_field_name_later_entry_wins() {
    let fields = vec![
        ("f".to_string(), field(0, None, Some(1))),
        ("f".to_string(), field(1, None, Some(1))),
    ];
    let config = vec![("r".to_string(), leaf(fields))];
    let r = smart_decode(1, &path(&["r"]), &config);
    assert_eq!(values(&r), vec![("f".to_string(), "0x0".to_string())]);
    assert_eq!(r.fields[0].sort, 1);
    let prepared = prep_decoders(&config[0].1);
    assert_eq!(prepared.len(), 1);
    assert_eq!(prepared[0].as_ref().unwrap().base_offset, 1);
}

#[test]
fn overridden_entry_leaves_no_line() {
    let fields = vec![
        ("k".to_string(), field(0, None, Some(4))),
        ("k".to_string(), field(30, None, Some(4))),
        ("ok".to_string(), field(4, None, Some(4))),
    ];
    let config = vec![("r".to_string(), leaf(fields))];
    let r = smart_decode(0x21, &path(&["r"]), &config);
    assert_eq!(values(&r), vec![("ok".to_string(), "0x2".to_string())]);
    let skipped: Vec<(String, MaskError)> = r.skipped.iter().map(|e| (e.name.clone(), e.error)).collect();
    assert_eq!(skipped, vec![("k".to_string(), MaskError::TooWide)]);
}

#[test]
fn overridden_malformed_entry_is_not_reported() {
    let fields = vec![
        ("k".to_string(), field(9, Some(3), None)),
        ("k".to_string(), field(0, None, Some(2))),
    ];
    let config = vec![("r".to_string(), leaf(fields))];
    let r = smart_decode(3, &path(&["r"]), &config);
    assert_eq!(values(&r), vec![("k".to_string(), "0x3".to_string())]);
    assert!(r.skipped.is_empty());
}
