use streamlog::{
    append_content, find_active, format_duration, initial_content, lines_of, log_file_name,
    log_stamp, parse_i64, replay_lines, start_log, Stamp,
};

#[test]
fn shift_to_secs_parsing_secs_only() {
    let cmd = Stamp {
        shift: Some("44".to_string()),
    };

    assert_eq!(cmd.shift_in_secs(), Some(44));
}

#[test]
fn shift_to_secs_parsing_mins_secs() {
    let cmd = Stamp {
        shift: Some("02:44".to_string()),
    };

    assert_eq!(cmd.shift_in_secs(), Some(164));
}

#[test]
fn shift_to_secs_parsing_hrs_mins_secs() {
    let cmd = Stamp {
        shift: Some("01:02:44".to_string()),
    };

    assert_eq!(cmd.shift_in_secs(), Some(3764));
}

#[test]
fn shift_with_no_text_has_no_value() {
    let cmd = Stamp { shift: None };
    assert_eq!(cmd.shift_in_secs(), None);
}

#[test]
fn shift_with_too_many_segments_has_no_value() {
    let cmd = Stamp {
        shift: Some("1:2:3:4".to_string()),
    };
    assert_eq!(cmd.shift_in_secs(), None);
}

#[test]
fn shift_with_non_numeric_segment_has_no_value() {
    let cmd = Stamp {
        shift: Some("ab".to_string()),
    };
    assert_eq!(cmd.shift_in_secs(), None);
    let cmd = Stamp {
        shift: Some("1:xx:3".to_string()),
    };
    assert_eq!(cmd.shift_in_secs(), None);
    let cmd = Stamp {
        shift: Some("".to_string()),
    };
    assert_eq!(cmd.shift_in_secs(), None);
}

#[test]
fn shift_segments_may_be_negative() {
    let cmd = Stamp {
        shift: Some("-01:00:00".to_string()),
    };
    assert_eq!(cmd.shift_in_secs(), Some(-3600));
    let cmd = Stamp {
        shift: Some("-5".to_string()),
    };
    assert_eq!(cmd.shift_in_secs(), Some(-5));
}

#[test]
fn parse_i64_accepts_the_integer_grammar() {
    assert_eq!(parse_i64("123"), Some(123));
    assert_eq!(parse_i64("-5"), Some(-5));
    assert_eq!(parse_i64("+7"), Some(7));
    assert_eq!(parse_i64("007"), Some(7));
    assert_eq!(parse_i64("0"), Some(0));
}

#[test]
fn parse_i64_rejects_everything_else() {
    assert_eq!(parse_i64(""), None);
    assert_eq!(parse_i64("-"), None);
    assert_eq!(parse_i64("+"), None);
    assert_eq!(parse_i64("12a"), None);
    assert_eq!(parse_i64("a12"), None);
    assert_eq!(parse_i64("1 2"), None);
    assert_eq!(parse_i64("--4"), None);
}

#[test]
fn parse_i64_respects_the_i64_range() {
    assert_eq!(parse_i64("9223372036854775807"), Some(i64::MAX));
    assert_eq!(parse_i64("9223372036854775808"), None);
    assert_eq!(parse_i64("-9223372036854775808"), Some(i64::MIN));
    assert_eq!(parse_i64("-9223372036854775809"), None);
    assert_eq!(parse_i64("99999999999999999999999999"), None);
}

#[test]
fn find_active_picks_the_greatest_stamp() {
    let names = vec![
        "100.csv".to_string(),
        "200.csv".to_string(),
        "junk.txt".to_string(),
    ];
    assert_eq!(find_active(&names), Some(200));
}

#[test]
fn find_active_ignores_wrong_extensions_and_non_numbers() {
    let names = vec![
        "300.txt".to_string(),
        "junk.csv".to_string(),
        "1.2.csv".to_string(),
        "50.csv".to_string(),
    ];
    assert_eq!(find_active(&names), Some(50));
}

#[test]
fn find_active_with_no_valid_log_finds_nothing() {
    let none: Vec<String> = Vec::new();
    assert_eq!(find_active(&none), None);
    let names = vec!["junk.txt".to_string(), "notes".to_string()];
    assert_eq!(find_active(&names), None);
}

#[test]
fn log_stamp_reads_valid_names_only() {
    assert_eq!(log_stamp("200.csv"), Some(200));
    assert_eq!(log_stamp("-5.csv"), Some(-5));
    assert_eq!(log_stamp("junk.txt"), None);
    assert_eq!(log_stamp("10.txt"), None);
    assert_eq!(log_stamp("1.2.csv"), None);
    assert_eq!(log_stamp("csv"), None);
}

#[test]
fn file_name_and_contents_have_the_documented_shape() {
    assert_eq!(log_file_name(5), "5.csv".to_string());
    assert_eq!(log_file_name(-3), "-3.csv".to_string());
    assert_eq!(initial_content(5), "5,".to_string());
    assert_eq!(append_content("hi", 7), "hi\n7,".to_string());
}

#[test]
fn a_started_log_is_the_active_one() {
    let (t, name, content) = start_log();
    assert_eq!(name, format!("{}.csv", t));
    assert_eq!(content, format!("{},", t));
    let names = vec!["100.csv".to_string(), name];
    // the clock reads well past 100 seconds after the epoch
    assert_eq!(find_active(&names), Some(t));
}

#[test]
fn one_append_replays_as_a_single_zero_line() {
    let mut content = initial_content(100);
    content.push_str(&append_content("first", 130));
    assert_eq!(replay_lines(&content, 0), vec!["0:00:00 first".to_string()]);
}

#[test]
fn two_appends_replay_in_order() {
    let mut content = initial_content(1000);
    content.push_str(&append_content("one", 1061));
    content.push_str(&append_content("two", 1100));
    assert_eq!(
        replay_lines(&content, 0),
        vec!["0:00:00 one".to_string(), "0:01:01 two".to_string()]
    );
}

#[test]
fn a_shift_moves_every_line_forward() {
    let mut content = initial_content(1000);
    content.push_str(&append_content("one", 1061));
    content.push_str(&append_content("two", 1100));
    let stamp = Stamp {
        shift: Some("01:00:00".to_string()),
    };
    let shift = stamp.shift_in_secs().unwrap_or(0);
    assert_eq!(shift, 3600);
    assert_eq!(
        replay_lines(&content, shift),
        vec!["1:00:00 one".to_string(), "1:01:01 two".to_string()]
    );
}

#[test]
fn a_placeholder_only_log_replays_to_nothing() {
    assert_eq!(replay_lines(&initial_content(1000), 0), Vec::<String>::new());
    assert_eq!(replay_lines("1000,", 3600), Vec::<String>::new());
}

#[test]
fn an_empty_message_is_skipped() {
    let mut content = initial_content(100);
    content.push_str(&append_content("", 130));
    assert_eq!(replay_lines(&content, 0), Vec::<String>::new());
}

#[test]
fn malformed_lines_are_silently_dropped() {
    let content = "garbage\n100,kept\nalso garbage,skipped\n130,";
    assert_eq!(replay_lines(content, 0), vec!["0:00:00 kept".to_string()]);
}

#[test]
fn the_message_runs_from_the_first_comma_to_the_line_end() {
    assert_eq!(replay_lines("100,a,b", 0), vec!["0:00:00 a,b".to_string()]);
}

#[test]
fn replay_is_idempotent() {
    let mut content = initial_content(1000);
    content.push_str(&append_content("one", 1061));
    content.push_str(&append_content("two", 1100));
    let first = replay_lines(&content, 30);
    let second = replay_lines(&content, 30);
    assert_eq!(first, second);
}

#[test]
fn durations_decompose_without_wrapping() {
    assert_eq!(format_duration(0), "0:00:00".to_string());
    assert_eq!(format_duration(3661), "1:01:01".to_string());
    assert_eq!(format_duration(59), "0:00:59".to_string());
    assert_eq!(format_duration(60), "0:01:00".to_string());
    assert_eq!(format_duration(86400), "24:00:00".to_string());
    assert_eq!(format_duration(360000), "100:00:00".to_string());
}

#[test]
fn negative_durations_truncate_toward_zero() {
    // each non-zero component carries its own sign, as format! writes them
    assert_eq!(format_duration(-61), "0:-1:-1".to_string());
    assert_eq!(format_duration(-3661), "-1:-1:-1".to_string());
}

#[test]
fn lines_split_like_the_standard_library() {
    assert_eq!(
        lines_of("a\nb\n"),
        vec!["a".to_string(), "b".to_string()]
    );
    assert_eq!(
        lines_of("a\r\nb"),
        vec!["a".to_string(), "b".to_string()]
    );
    assert_eq!(lines_of(""), Vec::<String>::new());
    // a carriage return at the very end, with no newline after it, stays
    assert_eq!(lines_of("a\r"), vec!["a\r".to_string()]);
    assert_eq!(lines_of("a\r\n"), vec!["a".to_string()]);
}
