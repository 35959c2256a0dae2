use rmstuff::size::FileSize;

#[test]
fn test_bytes() {
    assert_eq!(FileSize::new(1024).bytes(), 1024);
}

#[test]
fn test_human_readable_output() {
    assert_eq!(FileSize::new(1024).human_readable_output(), "1.0KiB");
    assert_eq!(FileSize::new(1_048_576).human_readable_output(), "1.0MiB");
    assert_eq!(
        FileSize::new(1_073_741_824).human_readable_output(),
        "1.0GiB"
    );
    assert_eq!(
        FileSize::new(1_099_511_627_776).human_readable_output(),
        "1.0TiB"
    );
    assert_eq!(
        FileSize::new(1_125_899_906_842_624).human_readable_output(),
        "1.0PiB"
    );
    assert_eq!(
        FileSize::new(1_152_921_504_606_846_976).human_readable_output(),
        "1.0EiB"
    );
}

#[test]
fn zero_is_rendered_in_bytes() {
    assert_eq!(FileSize::new(0).human_readable_output(), "0.0B");
    assert_eq!(FileSize::new(1).human_readable_output(), "1.0B");
}

#[test]
fn unit_changes_at_exactly_1024() {
    assert_eq!(FileSize::new(1023).human_readable_output(), "1023.0B");
    assert_eq!(FileSize::new(1024).human_readable_output(), "1.0KiB");
    assert_eq!(FileSize::new(1025).human_readable_output(), "1.0KiB");
    assert_eq!(FileSize::new(1_048_575).human_readable_output(), "1024.0KiB");
    assert_eq!(FileSize::new(1_048_576).human_readable_output(), "1.0MiB");
    assert_eq!(
        FileSize::new(1_073_741_823).human_readable_output(),
        "1024.0MiB"
    );
}

#[test]
fn one_decimal_digit_is_rounded() {
    assert_eq!(FileSize::new(1536).human_readable_output(), "1.5KiB");
    assert_eq!(FileSize::new(1126).human_readable_output(), "1.1KiB");
    assert_eq!(FileSize::new(1996).human_readable_output(), "1.9KiB");
    assert_eq!(FileSize::new(2047).human_readable_output(), "2.0KiB");
    assert_eq!(FileSize::new(10 * 1024 + 512).human_readable_output(), "10.5KiB");
}

#[test]
fn a_tie_goes_to_the_even_digit() {
    assert_eq!(FileSize::new(1280).human_readable_output(), "1.2KiB");
    assert_eq!(FileSize::new(1792).human_readable_output(), "1.8KiB");
    assert_eq!(FileSize::new(256 + 3 * 1024).human_readable_output(), "3.2KiB");
}

#[test]
fn the_largest_count_is_rendered() {
    assert_eq!(FileSize::new(u64::MAX).human_readable_output(), "16.0EiB");
    assert_eq!(
        FileSize::new(3 * 1_152_921_504_606_846_976 / 2).human_readable_output(),
        "1.5EiB"
    );
}

#[test]
fn to_string_is_the_human_readable_output() {
    assert_eq!(FileSize::new(1536).to_string(), "1.5KiB");
    assert_eq!(
        FileSize::new(123_456_789).to_string(),
        FileSize::new(123_456_789).human_readable_output()
    );
}

fn with_a_double(bytes: u64) -> String {
    let units: [(u64, &str); 7] = [
        (1, "B"),
        (1024, "KiB"),
        (1_048_576, "MiB"),
        (1_073_741_824, "GiB"),
        (1_099_511_627_776, "TiB"),
        (1_125_899_906_842_624, "PiB"),
        (1_152_921_504_606_846_976, "EiB"),
    ];
    let mut chosen = units[0];
    for unit in units {
        if bytes >= unit.0 {
            chosen = unit;
        }
    }
    format!("{:.1}{}", bytes as f64 / chosen.0 as f64, chosen.1)
}

#[test]
fn rendering_agrees_with_double_precision_formatting() {
    let mut bytes: u64 = 0;
    let mut step: u64 = 1;
    let mut rounds = 0;
    while rounds < 20_000 {
        assert_eq!(
            FileSize::new(bytes).human_readable_output(),
            with_a_double(bytes),
            "{}",
            format!("at {}", bytes)
        );
        bytes = bytes.wrapping_add(step);
        step = step.wrapping_mul(3).wrapping_add(7) % 1_000_003 + (bytes >> 7);
        rounds += 1;
    }
}

#[test]
fn rendering_agrees_with_double_precision_formatting_near_ties() {
    let units: [u64; 6] = [
        1024,
        1_048_576,
        1_073_741_824,
        1_099_511_627_776,
        1_125_899_906_842_624,
        1_152_921_504_606_846_976,
    ];
    for unit in units {
        let mut twentieths: u64 = 20;
        while twentieths < 320 {
            let centre = unit / 20 * twentieths + unit % 20 * twentieths / 20;
            let mut offset: u64 = 0;
            while offset < 5 {
                for bytes in [centre - offset, centre + offset] {
                    assert_eq!(
                        FileSize::new(bytes).human_readable_output(),
                        with_a_double(bytes),
                        "{}",
                        format!("at {}", bytes)
                    );
                }
                offset += 1;
            }
            twentieths += 1;
        }
    }
}

#[test]
fn rendering_agrees_with_double_precision_formatting_beyond_exact_doubles() {
    let start: u64 = 9_007_199_254_740_992;
    let mut bytes = start - 3;
    let mut rounds = 0;
    while rounds < 4000 {
        assert_eq!(
            FileSize::new(bytes).human_readable_output(),
            with_a_double(bytes),
            "{}",
            format!("at {}", bytes)
        );
        bytes = bytes.saturating_add(1 + rounds * rounds * 1_000_000_007);
        rounds += 1;
    }
    let mut high = u64::MAX;
    let mut rounds = 0;
    while rounds < 3000 {
        assert_eq!(
            FileSize::new(high).human_readable_output(),
            with_a_double(high),
            "{}",
            format!("at {}", high)
        );
        high -= 1 + rounds * 1_234_567_891;
        rounds += 1;
    }
}
