use cordis::console::{
    format_duration, pad_end, pad_start, type_char, Align, ConsoleConfig, ConsoleExporter,
    LabelStyle, LoggerType, Painted, EXACT_DURATION,
};

/// Without colors the painted parts are the plain ones.
fn render(
    exporter: &mut ConsoleExporter,
    kind: LoggerType,
    name: &str,
    ts: u64,
    message: &str,
) -> String {
    let diff = exporter.diff_text(ts);
    let painted = Painted {
        time: exporter.config.show_time.clone(),
        label: name.to_string(),
        message: message.to_string(),
        diff,
    };
    exporter.render(kind, name, ts, &painted)
}

fn exporter(show_diff: bool, label: Option<LabelStyle>) -> ConsoleExporter {
    let config = ConsoleConfig {
        colors: 0,
        show_diff,
        show_time: String::new(),
        label,
        ..ConsoleConfig::default()
    };
    ConsoleExporter::new(config, 1000)
}

#[test]
fn formats_error() {
    let mut exp = exporter(true, None);
    let rendered = render(&mut exp, LoggerType::Error, "test", 1000, "message");
    assert_eq!(rendered, "[E] test message +0ms");
}

#[test]
fn formats_object_with_diff() {
    let mut exp = exporter(true, None);
    let rendered = render(&mut exp, LoggerType::Info, "test", 1002, "{ foo: 'bar' }");
    assert_eq!(rendered, "[I] test { foo: 'bar' } +2ms");
}

#[test]
fn label_style_right_align_multiline() {
    let label = LabelStyle { width: 10, margin: 2, align: Align::Right };
    let mut exp = exporter(true, Some(label));
    let rendered = render(&mut exp, LoggerType::Info, "test", 1000, "message\nmessage");
    assert_eq!(rendered, "      test  [I]  message\n                 message +0ms");
}

#[test]
fn left_labels_are_padded_behind() {
    let label = LabelStyle { width: 6, margin: 1, align: Align::Left };
    let mut exp = exporter(false, Some(label));
    assert_eq!(render(&mut exp, LoggerType::Warn, "test", 1, "a\nb"), "[W] test   a\n    b");
}

#[test]
fn painting_does_not_count_for_the_width() {
    let label = LabelStyle { width: 6, margin: 1, align: Align::Right };
    let mut exp = exporter(false, Some(label));
    let painted = Painted {
        time: String::new(),
        label: "<b>test</b>".to_string(),
        message: "m".to_string(),
        diff: None,
    };
    assert_eq!(exp.render(LoggerType::Debug, "test", 1, &painted), "  <b>test</b> [D] m");
}

#[test]
fn times_are_shown_and_counted() {
    let mut exp = ConsoleExporter::new(
        ConsoleConfig { show_time: "hh:mm ".to_string(), ..ConsoleConfig::default() },
        5,
    );
    assert_eq!(
        render(&mut exp, LoggerType::Info, "t", 9, "x\ny"),
        "hh:mm [I] t x\n          y"
    );
    assert_eq!(exp.timestamp, 9);
    exp.set_timestamp(0);
    exp.config.show_diff = true;
    assert_eq!(exp.diff(7), None);
    exp.set_timestamp(10);
    assert_eq!(exp.diff(7), Some(0));
    assert_eq!(exp.diff_text(1240).as_deref(), Some(" +1.23s"));
    assert_eq!(exp.diff_text(EXACT_DURATION + 10), None);
    exp.config.show_diff = false;
    assert_eq!(exp.diff_text(1240), None);
}

#[test]
fn defaults() {
    let config = ConsoleConfig::default();
    assert_eq!(config.colors, 0);
    assert_eq!(config.max_length, 10240);
    assert_eq!(config.show_time, "yyyy-MM-dd hh:mm:ss ");
    assert!(!config.show_diff && config.label.is_none() && config.levels.is_none());
    assert!(Align::default() == Align::Left);
}

#[test]
fn durations_match_floating_point() {
    for ms in [0, 1, 999, 1000, 1001, 1010, 1100, 1500, 61234, 999_999, 123_456_789_012_345] {
        let expected = if ms < 1000 {
            format!("{ms}ms")
        } else {
            format!("{}s", ms as f64 / 1000.0)
        };
        assert_eq!(format_duration(ms), Some(expected));
    }
    assert_eq!(format_duration(EXACT_DURATION), None);
    assert_eq!(format_duration(1230).unwrap(), "1.23s");
}

#[test]
fn letters_and_padding() {
    assert_eq!(type_char(LoggerType::Error), 'E');
    assert_eq!(type_char(LoggerType::Debug), 'D');
    assert_eq!(pad_end("ab", 4), "ab  ");
    assert_eq!(pad_start("ab", 4), "  ab");
    assert_eq!(pad_start("abcde", 4), "abcde");
    assert_eq!(pad_end("é", 2), "é ");
}
