//! Tests for the aggregation table and its rendering.

use weather_stats::aggregate::{WeatherData, WeatherMap};
use weather_stats::line::{process_line, LineError};

#[test]
fn record_starts_at_first_value() {
    let d = WeatherData::new(123);
    assert_eq!(d.min, 123);
    assert_eq!(d.max, 123);
    assert_eq!(d.total, 123);
    assert_eq!(d.count, 1);
}

#[test]
fn record_update_tracks_extrema_and_total() {
    let mut d = WeatherData::new(120);
    d.update(160);
    d.update(80);
    assert_eq!(d.min, 80);
    assert_eq!(d.max, 160);
    assert_eq!(d.total, 360);
    assert_eq!(d.count, 3);
}

#[test]
fn extrema_are_monotone_over_updates() {
    let mut d = WeatherData::new(50);
    let values = [70i16, -30, 10, -30, 99, 0];
    for v in values {
        let (old_min, old_max) = (d.min, d.max);
        d.update(v);
        assert!(d.min <= old_min);
        assert!(d.max >= old_max);
    }
}

#[test]
fn worked_example_paris() {
    let mut map = WeatherMap::new();
    map.update(b"Paris", 120);
    map.update(b"Paris", 160);
    map.update(b"Paris", 80);
    assert_eq!(map.render(), b"{Paris=8.0/12.0/16.0}".to_vec());
}

#[test]
fn empty_table_renders_braces() {
    let map = WeatherMap::new();
    assert_eq!(map.render(), b"{}".to_vec());
}

#[test]
fn output_is_sorted_by_key() {
    let mut map = WeatherMap::new();
    map.update(b"b", 50);
    map.update(b"a", 50);
    map.update(b"c", 50);
    assert_eq!(
        map.render(),
        b"{a=5.0/5.0/5.0, b=5.0/5.0/5.0, c=5.0/5.0/5.0}".to_vec()
    );
}

#[test]
fn single_observation_renders_value_three_times() {
    let mut map = WeatherMap::new();
    map.update(b"Oslo", -32);
    assert_eq!(map.render(), b"{Oslo=-3.2/-3.2/-3.2}".to_vec());
}

#[test]
fn render_is_idempotent() {
    let mut map = WeatherMap::new();
    map.update(b"x", 17);
    map.update(b"y", -41);
    map.update(b"x", 3);
    let first = map.render();
    let second = map.render();
    assert_eq!(first, second);
}

#[test]
fn order_of_observations_does_not_matter() {
    let updates = [("b", 10i16), ("a", -25), ("a", 99), ("b", 0), ("a", -25)];
    let mut forward = WeatherMap::new();
    for (k, v) in updates {
        forward.update(k.as_bytes(), v);
    }
    let mut backward = WeatherMap::new();
    for (k, v) in updates.iter().rev() {
        backward.update(k.as_bytes(), *v);
    }
    assert_eq!(forward.render(), backward.render());
}

#[test]
fn mean_is_truncated_toward_zero() {
    let mut map = WeatherMap::new();
    map.update(b"k", -15);
    map.update(b"k", 0);
    // total -15 over 2 observations: mean -7, printed without sign since the
    // integer part is zero.
    assert_eq!(map.render(), b"{k=-1.5/0.7/0.0}".to_vec());
}

#[test]
fn negative_means_keep_their_sign_when_large() {
    let mut map = WeatherMap::new();
    map.update(b"k", -300);
    map.update(b"k", -100);
    assert_eq!(map.render(), b"{k=-30.0/-20.0/-10.0}".to_vec());
}

#[test]
fn process_line_folds_key_and_value() {
    let mut map = WeatherMap::new();
    assert_eq!(process_line(&mut map, b"Paris;12.0\n"), Ok(()));
    assert_eq!(process_line(&mut map, b"Paris; 16.0 \r\n"), Ok(()));
    assert_eq!(process_line(&mut map, b"Paris;8.0"), Ok(()));
    assert_eq!(map.render(), b"{Paris=8.0/12.0/16.0}".to_vec());
}

#[test]
fn process_line_without_separator_fails() {
    let mut map = WeatherMap::new();
    assert_eq!(
        process_line(&mut map, b"no separator here\n"),
        Err(LineError::MissingSeparator)
    );
    assert_eq!(map.render(), b"{}".to_vec());
}

#[test]
fn process_line_with_bad_value_fails() {
    let mut map = WeatherMap::new();
    assert_eq!(
        process_line(&mut map, b"Paris;12.34\n"),
        Err(LineError::InvalidValue)
    );
    assert_eq!(
        process_line(&mut map, b"Paris;\n"),
        Err(LineError::InvalidValue)
    );
    assert_eq!(map.render(), b"{}".to_vec());
}

#[test]
fn keys_may_repeat_only_once_in_output() {
    let mut map = WeatherMap::new();
    map.update(b"a", 10);
    map.update(b"a", 30);
    map.update(b"b", 20);
    assert_eq!(map.render(), b"{a=1.0/2.0/3.0, b=2.0/2.0/2.0}".to_vec());
    assert_eq!(map.len(), 2);
}
