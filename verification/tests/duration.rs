use abada::request::duration::{duration_scan, parse_duration_with, DurationPart};
use abada::request::gotime::runtime_duration;

/// `time.ParseDuration`: the library's scan and sum, each fraction worked
/// out in `float64` as Go does.
fn parse_duration(s: &[u8]) -> Result<i64, String> {
    let scan = duration_scan(s);
    let fracs: Vec<u64> = scan
        .parts
        .iter()
        .map(|p: &DurationPart| {
            let mut scale: f64 = 1.0;
            for _ in 0..p.digits {
                scale *= 10.0;
            }
            (p.frac as f64 * (p.unit as f64 / scale)) as u64
        })
        .collect();
    parse_duration_with(s, &fracs).map_err(|e| String::from_utf8(e).unwrap())
}

#[test]
fn durations_like_go() {
    assert_eq!(parse_duration(b"1h30m"), Ok(5_400_000_000_000));
    assert_eq!(
        parse_duration(b"5").unwrap_err(),
        r#"time: missing unit in duration "5""#
    );
    assert_eq!(runtime_duration(b"-0.000000001s"), Ok((0, -1)));
}

#[test]
fn components_keep_their_fractions_for_the_caller() {
    let scan = duration_scan(b"-1.5us2ns");
    assert!(scan.neg);
    assert_eq!(
        scan.parts,
        vec![
            DurationPart { whole: 1000, frac: 5, digits: 1, unit: 1000 },
            DurationPart { whole: 2, frac: 0, digits: 0, unit: 1 },
        ]
    );
    assert!(duration_scan(b"+0").zero);
    assert_eq!(duration_scan(b"").error, Some(br#"time: invalid duration """#.to_vec()));
    assert_eq!(duration_scan(b".s").error, Some(br#"time: invalid duration ".s""#.to_vec()));
    assert_eq!(
        duration_scan(b"3x").error,
        Some(br#"time: unknown unit "x" in duration "3x""#.to_vec())
    );
    assert_eq!(
        duration_scan(b"9223372036854775809ns").error,
        Some(br#"time: invalid duration "9223372036854775809ns""#.to_vec())
    );
    assert_eq!(parse_duration("2\u{b5}s".as_bytes()), Ok(2000));
}

#[test]
fn duration_sums_keep_go_s_bounds_and_sign() {
    assert_eq!(parse_duration(b"1.5h"), Ok(5_400_000_000_000));
    assert_eq!(parse_duration(b"-1.5us2ns"), Ok(-1502));
    assert_eq!(parse_duration(b"0"), Ok(0));
    assert_eq!(parse_duration(b"-9223372036854775808ns"), Ok(i64::MIN));
    assert_eq!(
        parse_duration(b"9223372036854775808ns").unwrap_err(),
        r#"time: invalid duration "9223372036854775808ns""#
    );
    assert_eq!(
        parse_duration(b"9223372036854775807ns1ns").unwrap_err(),
        r#"time: invalid duration "9223372036854775807ns1ns""#
    );
}
