use copper::records::{frame_record, log_text, split_complete_lines};

#[test]
fn split_keeps_only_closed_lines() {
    assert_eq!(split_complete_lines("a\nb\n\nc"), vec!["a", "b", ""]);
    assert_eq!(split_complete_lines(""), Vec::<String>::new());
    assert_eq!(split_complete_lines("no newline"), Vec::<String>::new());
    assert_eq!(split_complete_lines("\n"), vec![""]);
    assert_eq!(split_complete_lines("é\nü\n"), vec!["é", "ü"]);
}

#[test]
fn frame_record_removes_newlines_and_closes_the_line() {
    assert_eq!(frame_record("{\"a\":\n1}"), "{\"a\":1}\n");
    assert_eq!(frame_record(""), "\n");
    assert_eq!(frame_record("\n\n"), "\n");
}

#[test]
fn log_text_frames_each_record_in_order() {
    let records = vec!["x".to_string(), "y\nz".to_string(), "{}".to_string()];
    assert_eq!(log_text(&records), "x\nyz\n{}\n");
    assert_eq!(log_text(&Vec::new()), "");
}

#[test]
fn framed_records_read_back_unchanged() {
    let records = vec!["[1,2]".to_string(), "{\"k\":\"v\"}".to_string(), "null".to_string()];
    let text = log_text(&records);
    assert_eq!(split_complete_lines(&text), records);
}

#[test]
fn batches_written_one_after_another_equal_one_write() {
    let a = vec!["{\"n\":1}".to_string(), "{\"n\":2}".to_string()];
    let b = vec!["{\"n\":3}".to_string()];
    let mut all = a.clone();
    all.extend(b.clone());
    assert_eq!(log_text(&a) + &log_text(&b), log_text(&all));
}
