use line_encoder::encoder::{encode_events, Encoder, Event};
use line_encoder::error::Error;

fn enter(name: &str, count: usize) -> Event {
    Event::Enter(String::from(name), count)
}

fn scalar(text: &str) -> Event {
    Event::Scalar(String::from(text))
}

#[test]
fn single_flat_record() {
    let events = vec![enter("Msg", 1), scalar("HELLOX")];
    assert_eq!(encode_events(&events), "HELLOX'\n");
}

#[test]
fn flat_record_fields_joined() {
    let events = vec![enter("Rec", 2), scalar("AA"), scalar("BB")];
    assert_eq!(encode_events(&events), "AA+BB'\n");
}

#[test]
fn segment_then_repeated_root() {
    let events = vec![
        enter("Msg", 1),
        enter("SEG", 2),
        scalar("A"),
        scalar("B"),
        enter("Msg", 1),
        scalar("DATA"),
    ];
    assert_eq!(encode_events(&events), "SEG+A+B'\nDATA'\n");
}

#[test]
fn inline_group_inside_segment() {
    let events = vec![
        enter("Msg", 1),
        enter("SEG", 3),
        scalar("field1"),
        enter("grp", 2),
        scalar("X"),
        scalar("Y"),
        scalar("field3"),
    ];
    assert_eq!(encode_events(&events), "SEG+field1+X:Y+field3'\n");
}

#[test]
fn sibling_segments_get_their_own_lines() {
    let events = vec![
        enter("Msg", 1),
        enter("seg1", 1),
        scalar("AAA"),
        enter("seg2", 1),
        scalar("BBB"),
    ];
    assert_eq!(encode_events(&events), "SEG1+AAA'\nSEG2+BBB'\n");
}

#[test]
fn segment_names_are_uppercased() {
    let events = vec![enter("Msg", 1), enter("seg_1x", 1), scalar("VALUE")];
    assert_eq!(encode_events(&events), "SEG_1X+VALUE'\n");
}

#[test]
fn record_repetition_by_prefix() {
    let events = vec![
        enter("Msg", 1),
        scalar("AAAA"),
        enter("MsgExtra", 1),
        scalar("BBBB"),
    ];
    assert_eq!(encode_events(&events), "AAAA'\nBBBB'\n");
}

#[test]
fn short_line_is_suppressed() {
    let events = vec![enter("Msg", 1), scalar("ab")];
    assert_eq!(encode_events(&events), "");
}

#[test]
fn line_of_exactly_minimum_length_survives() {
    let events = vec![enter("Msg", 1), scalar("abcd")];
    assert_eq!(encode_events(&events), "abcd'\n");
}

#[test]
fn absent_keeps_field_position() {
    let events = vec![
        enter("Msg", 1),
        enter("SEG", 3),
        scalar("A1"),
        Event::Absent,
        scalar("A3"),
    ];
    assert_eq!(encode_events(&events), "SEG+A1++A3'\n");
}

#[test]
fn trailing_segment_delimiters_trimmed() {
    let events = vec![
        enter("Msg", 1),
        enter("SEG", 3),
        scalar("AB"),
        Event::Absent,
        Event::Absent,
    ];
    assert_eq!(encode_events(&events), "SEG+AB'\n");
}

#[test]
fn trailing_inline_delimiters_trimmed() {
    let events = vec![
        enter("Msg", 1),
        enter("SEG", 2),
        enter("grp", 2),
        scalar("X"),
        Event::Absent,
        scalar("TAIL"),
    ];
    assert_eq!(encode_events(&events), "SEG+X+TAIL'\n");
}

#[test]
fn open_inline_group_flushed_at_end() {
    let events = vec![
        enter("Msg", 1),
        enter("SEG", 2),
        enter("grp", 3),
        scalar("X"),
        scalar("Y"),
    ];
    assert_eq!(encode_events(&events), "SEG+X:Y'\n");
}

#[test]
fn record_without_fields_gives_empty_output() {
    let events = vec![enter("Msg", 0)];
    assert_eq!(encode_events(&events), "");
}

#[test]
fn empty_run_gives_empty_output() {
    let enc = Encoder::new();
    assert_eq!(enc.finish(), "");
}

#[test]
fn encoder_methods_drive_a_run() {
    let mut enc = Encoder::new();
    enc.enter_record("Msg", 1);
    enc.enter_record("SEG", 3);
    enc.scalar("field1");
    enc.enter_record("grp", 2);
    enc.scalar("X");
    enc.scalar("Y");
    enc.scalar("field3");
    assert_eq!(enc.finish(), "SEG+field1+X:Y+field3'\n");
}

#[test]
fn extra_scalars_do_not_underflow_the_countdown() {
    let events = vec![
        enter("Msg", 1),
        enter("SEG", 1),
        scalar("ONE"),
        scalar("TWO"),
        scalar("THREE"),
    ];
    assert_eq!(encode_events(&events), "SEG+ONE+TWO+THREE'\n");
}

#[test]
fn error_carries_its_message() {
    let e = Error::custom(String::from("traversal failed"));
    assert_eq!(e.message(), "traversal failed");
}
