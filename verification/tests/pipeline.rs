//! The pipeline stages on concrete values: filter, curve, quantizer,
//! value-file parsing.
use illuminanced::ErrorCode;
use illuminanced::LightConvertor;
use illuminanced::LightPoint;
use illuminanced::discrete_value::DiscreteValue;
use illuminanced::kalman::Kalman;
use illuminanced::read_file_to_u32;

fn point(illuminance: u32, light: u32) -> LightPoint {
    LightPoint { illuminance, light }
}

fn example_curve() -> LightConvertor {
    LightConvertor::new(vec![point(0, 0), point(100, 50), point(500, 255)])
}

#[test]
fn curve_maps_zero_to_zero() {
    assert_eq!(example_curve().get_light(0), 0);
}

#[test]
fn curve_clamps_high() {
    // 1000 lies beyond the last point: clamp to its light value.
    assert_eq!(example_curve().get_light(1000), 255_000);
}

#[test]
fn curve_interpolates_between_points() {
    // 50 + (300-100)/(500-100)*(255-50) = 152.5
    assert_eq!(example_curve().get_light(300), 152_500);
}

#[test]
fn curve_hits_configured_points_exactly() {
    let c = example_curve();
    assert_eq!(c.get_light(100), 50_000);
    assert_eq!(c.get_light(500), 255_000);
}

#[test]
fn curve_interpolates_decreasing_lights() {
    let c = LightConvertor::new(vec![point(0, 100), point(10, 0)]);
    assert_eq!(c.get_light(5), 50_000);
}

#[test]
fn curve_without_zero_point_gets_anchor() {
    // No configured point at illuminance 0: the implicit (0,0) anchor leads
    // the curve, so low queries interpolate up from darkness.
    let c = LightConvertor::new(vec![point(100, 50), point(500, 255)]);
    assert_eq!(c.get_light(0), 0);
    assert_eq!(c.get_light(50), 25_000);
}

#[test]
fn curve_from_empty_set_is_refused() {
    let r = LightConvertor::try_new(Vec::new());
    assert!(matches!(r, Err(ErrorCode::InvalidPointsInConfig)));
}

#[test]
fn curve_from_unsorted_points_is_sorted() {
    let c = LightConvertor::new(vec![point(500, 255), point(0, 0), point(100, 50)]);
    assert_eq!(c.get_light(300), 152_500);
}

#[test]
fn filter_converges_monotonically_on_constant_input() {
    // q < r: the estimate climbs toward the input without overshooting and
    // the covariance shrinks while well above its resting band.
    let mut k = Kalman::new(1000, 4000, 10_000);
    let mut last_x: u64 = 0;
    let mut last_p: u64 = k.p;
    for _ in 0..20 {
        let est = k.process(100);
        assert!(est >= last_x);
        assert!(est <= 100_000);
        assert!(k.p <= last_p);
        last_x = est;
        last_p = k.p;
    }
    assert!(last_x > 99_000);
}

#[test]
fn filter_exact_first_steps() {
    let mut k = Kalman::new(1000, 4000, 10_000);
    // p_pred = 11000, gain = 11000*1000/15000 = 733,
    // x = 733 * 100000 / 1000 = 73300, p = 267 * 11000 / 1000 = 2937.
    assert_eq!(k.process(100), 73_300);
    assert_eq!(k.p, 2_937);
    // p_pred = 3937, gain = 3937000/7937 = 496,
    // x = 73300 + 496 * 26700 / 1000 = 86543.
    assert_eq!(k.process(100), 86_543);
}

#[test]
fn filter_tracks_downward_too() {
    let mut k = Kalman::new(1000, 4000, 10_000);
    k.process(100);
    let before = k.x;
    let est = k.process(10);
    assert!(est <= before);
    assert!(est >= 10_000);
}

#[test]
fn quantizer_first_input_always_emits() {
    let mut q = DiscreteValue::new(0, 100, 10, 300);
    assert_eq!(q.update(50_000), Some(50));
}

#[test]
fn quantizer_suppresses_jitter_near_held_level() {
    // Step width is 10 units (10000 milli); inputs within 0.3 step of the
    // held grid position quantize back to it and are never emitted.
    let mut q = DiscreteValue::new(0, 100, 10, 300);
    assert_eq!(q.update(50_000), Some(50));
    assert_eq!(q.update(52_000), None);
    assert_eq!(q.update(48_500), None);
    assert_eq!(q.update(50_100), None);
}

#[test]
fn quantizer_emits_changed_target_exactly_once() {
    let mut q = DiscreteValue::new(0, 100, 10, 300);
    assert_eq!(q.update(50_000), Some(50));
    // 67.0 quantizes to grid index 7: one emission, then silence on the
    // same input.
    assert_eq!(q.update(67_000), Some(70));
    assert_eq!(q.update(67_000), None);
    assert_eq!(q.update(67_000), None);
}

#[test]
fn quantizer_clamps_into_level_range() {
    let mut q = DiscreteValue::new(10, 100, 9, 0);
    assert_eq!(q.update(0), Some(10));
    let mut q2 = DiscreteValue::new(10, 100, 9, 0);
    assert_eq!(q2.update(100_000_000), Some(100));
}

#[test]
fn quantizer_degenerate_span_holds_min() {
    let mut q = DiscreteValue::new(42, 42, 5, 100);
    assert_eq!(q.update(7_000), Some(42));
    assert_eq!(q.update(90_000), None);
}

#[test]
fn parse_plain_decimal() {
    assert_eq!(read_file_to_u32(Some(b"123\n")), Some(123));
    assert_eq!(read_file_to_u32(Some(b"0")), Some(0));
}

#[test]
fn parse_trims_trailing_whitespace_only() {
    assert_eq!(read_file_to_u32(Some(b"77 \t\r\n")), Some(77));
    assert_eq!(read_file_to_u32(Some(b" 77")), None);
}

#[test]
fn parse_accepts_leading_plus() {
    assert_eq!(read_file_to_u32(Some(b"+42\n")), Some(42));
    assert_eq!(read_file_to_u32(Some(b"+\n")), None);
}

#[test]
fn parse_rejects_garbage() {
    assert_eq!(read_file_to_u32(Some(b"")), None);
    assert_eq!(read_file_to_u32(Some(b"\n")), None);
    assert_eq!(read_file_to_u32(Some(b"12a")), None);
    assert_eq!(read_file_to_u32(Some(b"-5")), None);
}

#[test]
fn parse_respects_u32_bounds() {
    assert_eq!(read_file_to_u32(Some(b"4294967295")), Some(u32::MAX));
    assert_eq!(read_file_to_u32(Some(b"4294967296")), None);
    assert_eq!(read_file_to_u32(Some(b"999999999999999999")), None);
}

#[test]
fn parse_passes_read_failure_through() {
    assert_eq!(read_file_to_u32(None), None);
}
