//! The candidate source and the selection pipeline: splitting, encoding
//! failures, commit plans, and the independence of the two side effects.

use pwpick::candidates::{candidates_from_output, parse_generator_output};
use pwpick::errors::{ClipboardError, GeneratorError, HistoryError};
use pwpick::pipeline::{
    after_clipboard, choose_pw, commit_plan, history_actions, history_error_of, report_outcome,
    HistoryAction,
};
use pwpick::record::parse_record;
use pwpick::timestamp::Timestamp;

#[test]
fn generator_output_splits_into_nonempty_lines() {
    let out = parse_generator_output(b"abc\n\ndef\n".to_vec()).unwrap();
    assert_eq!(out, vec!["abc".to_string(), "def".to_string()]);
}

#[test]
fn generator_output_edge_shapes() {
    assert_eq!(parse_generator_output(Vec::new()).unwrap(), Vec::<String>::new());
    assert_eq!(parse_generator_output(b"\n\n\n".to_vec()).unwrap(), Vec::<String>::new());
    assert_eq!(
        parse_generator_output(b"one".to_vec()).unwrap(),
        vec!["one".to_string()]
    );
    assert_eq!(
        parse_generator_output("caf\u{00e9}\n".as_bytes().to_vec()).unwrap(),
        vec!["caf\u{00e9}".to_string()]
    );
}

#[test]
fn generator_output_that_is_not_text_is_rejected() {
    assert_eq!(
        parse_generator_output(vec![0xff, 0xfe]),
        Err(GeneratorError::InvalidEncoding)
    );
}

#[test]
fn unspawnable_generator_is_process_failed() {
    assert_eq!(
        candidates_from_output(None),
        Err(GeneratorError::ProcessFailed)
    );
    assert_eq!(
        candidates_from_output(Some(b"a\nb\n".to_vec())).unwrap(),
        vec!["a".to_string(), "b".to_string()]
    );
}

#[test]
fn commit_plan_holds_raw_payload_and_record_line() {
    let ts = Timestamp {
        year: 2024,
        month: 3,
        day: 11,
        hour: 14,
        minute: 2,
        second: 31,
        nanosecond: 500000000,
        offset_seconds: -18000,
    };
    let plan = commit_plan("Tr7kLm2Qp9Rx", &ts);
    assert_eq!(plan.clipboard, b"Tr7kLm2Qp9Rx".to_vec());
    assert_eq!(
        String::from_utf8(plan.history_line).unwrap(),
        "{\"pw\":\"Tr7kLm2Qp9Rx\",\"created_at\":\"2024-03-11T14:02:31.500000000-05:00\"}\n"
    );
}

#[test]
fn choose_pw_stamps_a_parseable_record() {
    let plan = choose_pw("s3cret");
    assert_eq!(plan.clipboard, b"s3cret".to_vec());
    let line = plan.history_line;
    assert_eq!(*line.last().unwrap(), b'\n');
    let (value, ts) = parse_record(&line[..line.len() - 1]).unwrap();
    assert_eq!(value, b"s3cret".to_vec());
    assert!((1..=12).contains(&ts.month));
    assert!((1..=31).contains(&ts.day));
    assert!(ts.hour <= 23 && ts.minute <= 59 && ts.second <= 59);
}

#[test]
fn history_is_attempted_whatever_the_clipboard_did() {
    let line = b"{\"pw\":\"x\"}\n".to_vec();
    for outcome in [
        Ok(()),
        Err(ClipboardError::SpawnFailed),
        Err(ClipboardError::WriteFailed),
    ] {
        let actions = after_clipboard(line.clone(), &outcome);
        assert_eq!(actions.len(), 4);
        assert!(matches!(actions[0], HistoryAction::EnsureDir));
        assert!(matches!(actions[1], HistoryAction::SetOwnerOnly));
        assert!(matches!(actions[2], HistoryAction::OpenAppend));
        match &actions[3] {
            HistoryAction::AppendLine(l) => assert_eq!(*l, line),
            other => panic!("unexpected final action: {:?}", other),
        }
    }
}

#[test]
fn outcomes_are_reported_independently() {
    let r = report_outcome(Err(ClipboardError::SpawnFailed), Ok(()));
    assert_eq!(r.clipboard, Err(ClipboardError::SpawnFailed));
    assert_eq!(r.history, Ok(()));
    let r = report_outcome(Ok(()), Err(HistoryError::WriteFailed));
    assert_eq!(r.clipboard, Ok(()));
    assert_eq!(r.history, Err(HistoryError::WriteFailed));
}

#[test]
fn every_history_step_reports_its_own_error() {
    assert_eq!(
        history_error_of(&HistoryAction::EnsureDir),
        HistoryError::DirCreateFailed
    );
    assert_eq!(
        history_error_of(&HistoryAction::SetOwnerOnly),
        HistoryError::PermissionFailed
    );
    assert_eq!(
        history_error_of(&HistoryAction::OpenAppend),
        HistoryError::FileOpenFailed
    );
    assert_eq!(
        history_error_of(&HistoryAction::AppendLine(Vec::new())),
        HistoryError::WriteFailed
    );
    let _ = history_actions(Vec::new());
}
