use engine_metal::bytes::parse_bytes;
use engine_metal::experts::plan::{Knobs, Policy};
use engine_metal::experts::words::{free_ram, nocache, policy, Words};
use engine_metal::fault::{Fault, Refusal};
use engine_metal::text::{chars_of, parse_number, say_number};

fn word(text: &str) -> Option<String> {
    Some(text.to_string())
}

fn unsaid() -> Words {
    Words { cache: None, headroom: None, prefill: None, nocache: None, report: None, log: None }
}

#[test]
fn bytes_parse() {
    assert_eq!(parse_bytes("4GiB"), Some(4 << 30));
    assert_eq!(parse_bytes("4G"), Some(4 << 30));
    assert_eq!(parse_bytes(" 512 MiB "), Some(512 << 20));
    assert_eq!(parse_bytes("1024"), Some(1024));
    assert_eq!(parse_bytes("1.5GiB"), Some(3 << 29));
    assert_eq!(parse_bytes("lots"), None);
}

#[test]
fn byte_counts_take_every_unit() {
    assert_eq!(parse_bytes("1k"), Some(1024));
    assert_eq!(parse_bytes("1KiB"), Some(1024));
    assert_eq!(parse_bytes("2 tib"), Some(2 << 40));
    assert_eq!(parse_bytes("7B"), Some(7));
    assert_eq!(parse_bytes(".5m"), Some(1 << 19));
    assert_eq!(parse_bytes("3."), Some(3));
}

#[test]
fn byte_counts_round_as_a_double_does() {
    // 0.1 is the double 3602879701896397 / 2^55; the bytes are its product
    // with the unit, cut towards zero.
    assert_eq!(parse_bytes("0.1KiB"), Some(102));
    assert_eq!(parse_bytes("0.3GiB"), Some(322122547));
    // 2^53 + 1 is no double: the even neighbour is taken.
    assert_eq!(parse_bytes("9007199254740993"), Some(9007199254740992));
}

#[test]
fn what_is_no_byte_count_is_refused() {
    for word in ["", " ", ".", "-1", "1e3", "1 furlong", "1..2", "GiB"] {
        assert_eq!(parse_bytes(word), None, "{word}");
    }
}

#[test]
fn free_ram_reads_on_apple() {
    assert!(free_ram(16384, Some((100, 200, 50))).is_some_and(|bytes| bytes > 0));
}

#[test]
fn free_ram_counts_the_reclaimable_pages() {
    assert_eq!(free_ram(4096, Some((3, 2, 1))), Some(6 * 4096));
    assert_eq!(free_ram(4096, None), None);
    assert_eq!(free_ram(0, Some((3, 2, 1))), None);
    assert_eq!(free_ram(-1, Some((3, 2, 1))), None);
}

#[test]
fn a_policy_is_read_from_its_words() {
    let auto = Policy::Auto { headroom: 4 << 30 };
    assert_eq!(policy(&None, &None, None).unwrap(), auto);
    assert_eq!(policy(&None, &None, Some(9)).unwrap(), Policy::Budget(9));
    for said in ["off", " False ", "NO", "full"] {
        assert_eq!(policy(&word(said), &None, Some(9)).unwrap(), Policy::Off, "{said}");
    }
    for said in ["", "  ", "auto", "On", "true", "yes"] {
        assert_eq!(policy(&word(said), &None, Some(9)).unwrap(), auto, "{said}");
    }
    assert_eq!(
        policy(&word(" Auto "), &word("1GiB"), None).unwrap(),
        Policy::Auto { headroom: 1 << 30 }
    );
    assert_eq!(policy(&word("12"), &None, Some(9)).unwrap(), Policy::Slots(12));
    assert_eq!(policy(&word(" +12 "), &None, Some(9)).unwrap(), Policy::Slots(12));
    assert_eq!(policy(&word("4294967295"), &None, None).unwrap(), Policy::Slots(u32::MAX));
}

#[test]
fn a_word_that_is_no_policy_is_refused_by_name() {
    for said in [" plenty ", "4294967296", "-1", "1.5"] {
        match policy(&word(said), &None, None).unwrap_err() {
            Fault::Residency(refusal) => {
                assert!(matches!(&refusal, Refusal::NotSeatCount { .. }));
                assert_eq!(
                    refusal.text(),
                    format!(
                        "`PIE_EXPERT_CACHE={}` is neither `off`, `auto`, nor a seat count",
                        said.trim()
                    )
                );
            }
            other => panic!("{other:?}"),
        }
    }
    // A headroom that is no byte count is refused even where it is not used.
    match policy(&word("off"), &word("lots "), None).unwrap_err() {
        Fault::Residency(refusal) => assert_eq!(
            refusal.text(),
            "`PIE_EXPERT_CACHE_HEADROOM=lots ` is not a byte count; write `4GiB`, `512MiB`, or a \
             plain number of bytes"
        ),
        other => panic!("{other:?}"),
    }
}

#[test]
fn the_page_cache_is_bypassed_unless_turned_off() {
    assert!(nocache(&None));
    assert!(nocache(&word("1")));
    assert!(nocache(&word("")));
    assert!(nocache(&word("OFF")));
    for said in ["0", " off ", "false", "no"] {
        assert!(!nocache(&word(said)), "{said}");
    }
}

#[test]
fn knobs_default_where_nothing_is_said() {
    let knobs = Knobs::of(&unsaid(), Some(5), None).unwrap();
    assert_eq!(knobs.policy, Policy::Budget(5));
    assert_eq!(knobs.prefill, None);
    assert!(knobs.nocache);
    assert_eq!(knobs.report_every, 256);
    let knobs = Knobs::of(
        &Words {
            cache: word("3"),
            prefill: word(" 8 "),
            nocache: word("0"),
            report: word("10"),
            ..unsaid()
        },
        Some(5),
        None,
    )
    .unwrap();
    assert_eq!(knobs.policy, Policy::Slots(3));
    assert_eq!(knobs.prefill, Some(8));
    assert!(!knobs.nocache);
    assert_eq!(knobs.report_every, 10);
    let said = |text: &str| Knobs::of(&Words { prefill: word(text), ..unsaid() }, None, None).unwrap().prefill;
    assert_eq!(said("Off"), Some(0));
    assert_eq!(said("many"), None);
}

#[test]
fn the_prefill_floor_follows_the_fan_out() {
    let knobs = Knobs::under(Policy::Off);
    assert_eq!(knobs.prefill_min(128, 8), 32);
    assert_eq!(knobs.prefill_min(512, 8), 128);
    assert_eq!(knobs.prefill_min(4, 0), 32);
    let knobs = Knobs { prefill: Some(3), ..Knobs::under(Policy::Off) };
    assert_eq!(knobs.prefill_min(128, 8), 3);
}

#[test]
fn a_number_said_is_read_back() {
    for n in [0, 7, 10, 4096, 1_000_000_007, u64::MAX] {
        let mut said = String::new();
        say_number(&mut said, n);
        assert_eq!(said, n.to_string());
        assert_eq!(parse_number(&chars_of(&said), u64::MAX), Some(n));
    }
    assert_eq!(parse_number(&chars_of("18446744073709551616"), u64::MAX), None);
    assert_eq!(parse_number(&chars_of(""), u64::MAX), None);
    assert_eq!(parse_number(&chars_of("+"), u64::MAX), None);
}

#[test]
fn whole_counts_below_the_mantissa_are_exact() {
    for n in [0u64, 1, 4095, 123_456_789_012_345, (1 << 53) - 1] {
        assert_eq!(parse_bytes(&n.to_string()), Some(n));
    }
}
