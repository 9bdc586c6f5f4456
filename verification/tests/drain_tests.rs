use statsd_export::metric::MetricValue;
use statsd_export::metric::metric_line;
use statsd_export::observer::StatsdBuilder;

#[test]
fn counter_suppression_and_reemission() {
    let mut o = StatsdBuilder::new().build();
    o.observe_counter("count".to_string(), 1);
    assert_eq!(o.drain(), "count:1:c\n");
    assert_eq!(o.drain(), "");
    o.observe_counter("count".to_string(), 1);
    assert_eq!(o.drain(), "");
    o.observe_counter("count".to_string(), 4);
    assert_eq!(o.drain(), "count:4:c\n");
}

#[test]
fn gauge_suppression() {
    let mut o = StatsdBuilder::new().build();
    o.observe_gauge("g".to_string(), 23);
    assert_eq!(o.drain(), "g:23:g\n");
    o.observe_gauge("g".to_string(), 23);
    assert_eq!(o.drain(), "");
}

#[test]
fn two_observers_keep_independent_baselines() {
    let mut tty = StatsdBuilder::new().build();
    let mut udp = StatsdBuilder::new().build();
    // one shared registry value, observed by both exporters' observers
    tty.observe_counter("x".to_string(), 1);
    udp.observe_counter("x".to_string(), 1);
    assert_eq!(tty.drain(), "x:1:c\n");
    assert_eq!(udp.drain(), "x:1:c\n");
}

#[test]
fn histogram_is_dropped_without_error() {
    let mut o = StatsdBuilder::new().build();
    o.observe_histogram("h".to_string(), &[1, 2, 3]);
    assert_eq!(o.drain(), "");
    o.observe_counter("c".to_string(), 7);
    o.observe_histogram("h".to_string(), &[4]);
    assert_eq!(o.drain(), "c:7:c\n");
}

#[test]
fn first_observation_emits_any_value() {
    let mut o = StatsdBuilder::new().build();
    o.observe_gauge("zero".to_string(), 0);
    assert_eq!(o.drain(), "zero:0:g\n");
}

#[test]
fn changed_value_emits_one_line_with_new_value() {
    let mut o = StatsdBuilder::new().build();
    o.observe_counter("k".to_string(), 1);
    assert_eq!(o.drain(), "k:1:c\n");
    o.observe_counter("k".to_string(), 2);
    assert_eq!(o.drain(), "k:2:c\n");
}

#[test]
fn gauge_change_of_sign_is_a_change() {
    let mut o = StatsdBuilder::new().build();
    o.observe_gauge("t".to_string(), 5);
    assert_eq!(o.drain(), "t:5:g\n");
    o.observe_gauge("t".to_string(), -5);
    assert_eq!(o.drain(), "t:-5:g\n");
}

#[test]
fn counter_and_gauge_under_one_name_differ() {
    let mut o = StatsdBuilder::new().build();
    o.observe_counter("n".to_string(), 3);
    assert_eq!(o.drain(), "n:3:c\n");
    // the same payload as a gauge is a different value, so it is re-emitted
    o.observe_gauge("n".to_string(), 3);
    assert_eq!(o.drain(), "n:3:g\n");
}

#[test]
fn second_drain_with_nothing_observed_is_empty() {
    let mut o = StatsdBuilder::new().build();
    o.observe_counter("a".to_string(), 1);
    o.observe_gauge("b".to_string(), 2);
    assert_eq!(o.drain(), "a:1:c\nb:2:g\n");
    assert_eq!(o.drain(), "");
    assert_eq!(o.drain(), "");
}

#[test]
fn drain_keeps_store_order() {
    let mut o = StatsdBuilder::new().build();
    o.observe_counter("a".to_string(), 1);
    o.observe_gauge("b".to_string(), -2);
    o.observe_counter("c".to_string(), 3);
    assert_eq!(o.drain(), "a:1:c\nb:-2:g\nc:3:c\n");
}

#[test]
fn overwrite_before_drain_keeps_position_and_last_value() {
    let mut o = StatsdBuilder::new().build();
    o.observe_counter("a".to_string(), 1);
    o.observe_counter("b".to_string(), 2);
    o.observe_counter("a".to_string(), 3);
    assert_eq!(o.drain(), "a:3:c\nb:2:c\n");
}

#[test]
fn unchanged_key_is_suppressed_but_changed_one_emits() {
    let mut o = StatsdBuilder::new().build();
    o.observe_counter("same".to_string(), 10);
    o.observe_gauge("moves".to_string(), 1);
    assert_eq!(o.drain(), "same:10:c\nmoves:1:g\n");
    o.observe_counter("same".to_string(), 10);
    o.observe_gauge("moves".to_string(), 2);
    assert_eq!(o.drain(), "moves:2:g\n");
}

#[test]
fn empty_observer_drains_empty() {
    let mut o = StatsdBuilder::new().build();
    assert_eq!(o.drain(), "");
}

#[test]
fn metric_line_counter() {
    assert_eq!(metric_line("cpu", MetricValue::Counter(42)), "cpu:42:c\n");
}

#[test]
fn metric_line_gauge_negative() {
    assert_eq!(metric_line("mem", MetricValue::Gauge(-7)), "mem:-7:g\n");
}

#[test]
fn metric_line_extreme_payloads() {
    assert_eq!(
        metric_line("big", MetricValue::Counter(u64::MAX)),
        "big:18446744073709551615:c\n"
    );
    assert_eq!(
        metric_line("low", MetricValue::Gauge(i64::MIN)),
        "low:-9223372036854775808:g\n"
    );
    assert_eq!(
        metric_line("high", MetricValue::Gauge(i64::MAX)),
        "high:9223372036854775807:g\n"
    );
    assert_eq!(metric_line("nil", MetricValue::Counter(0)), "nil:0:c\n");
}
