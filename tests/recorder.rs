use read_jeelink::{FrameRecorder, FrameRecorderState};

fn record_all(recorder: &mut FrameRecorder, data: &[&str]) -> Vec<String> {
    data.iter().flat_map(|s| s.chars()).filter_map(|c| recorder.push(c)).collect()
}

#[test]
fn test_frame_construction() {
    let data = [
        "OK 9 50 1 4 193 65\r\nOK 9 58 1 4 189 67\r\nOK 9 1 1 4 189 65\r\nOK 0 9 1",
        "OK 9 ",
        "\n[LaCrosseITPlusReader.10.1s (RFM69CW f:868300 t:30~3)",
        "]\r\n",
        "OK 9 13 1 4 181 ",
        "65\r\n",
        "OK 9 18 1 4 193 61\r\n",
        "OK 9 1 1 4 188 64\r\n",
    ];

    let mut recorder = FrameRecorder::new();

    let res: Vec<String> = data
        .iter()
        .flat_map(|s| s.chars())
        .filter_map(|c| recorder.push(c))
        .collect();

    let expect = [
        "50 1 4 193 65",
        "58 1 4 189 67",
        "1 1 4 189 65",
        "\n[LaCrosseITPlusReader.10.1s (RFM69CW f:868300 t:30~3)]",
        "13 1 4 181 65",
        "18 1 4 193 61",
        "1 1 4 188 64",
    ];
    assert_eq!(res.len(), expect.len());
    res.into_iter()
        .zip(expect.into_iter())
        .for_each(|(r, e)| assert_eq!(r, e));
}

#[test]
fn banner_after_preamble_becomes_a_body() {
    let data = [
        "OK 9 50 1 4 193 65\r\nOK 9 58 1 4 189 67\r\nOK 9 1 1 4 189 65\r\nOK 0 9 1",
        "OK 9 ",
        "\n[LaCrosseITPlusReader.10.1s (RFM69CW f:868300 t:30~3)",
        "]\r\n",
        "OK 9 13 1 4 181 ",
        "65\r\n",
    ];
    let mut recorder = FrameRecorder::new();
    let res = record_all(&mut recorder, &data);
    assert_eq!(
        res,
        vec![
            "50 1 4 193 65",
            "58 1 4 189 67",
            "1 1 4 189 65",
            "\n[LaCrosseITPlusReader.10.1s (RFM69CW f:868300 t:30~3)]",
            "13 1 4 181 65",
        ]
    );
}

#[test]
fn one_frame_is_recorded() {
    let mut recorder = FrameRecorder::new();
    assert_eq!(record_all(&mut recorder, &["OK 9 50 1 4 193 65\r\n"]), vec!["50 1 4 193 65"]);
}

#[test]
fn empty_body_is_recorded() {
    let mut recorder = FrameRecorder::new();
    assert_eq!(record_all(&mut recorder, &["OK 9 \r\n"]), vec![""]);
}

#[test]
fn no_frame_without_terminator() {
    let mut recorder = FrameRecorder::new();
    assert!(record_all(&mut recorder, &["OK 9 50 1 4 193 65\n", "noise"]).is_empty());
}

#[test]
fn broken_preamble_gives_nothing() {
    let mut recorder = FrameRecorder::new();
    assert!(record_all(&mut recorder, &["OK 8 50 1 4 193 65\r\n", "OK9 1\r\n"]).is_empty());
}

#[test]
fn failed_partial_preamble_swallows_the_next_start() {
    // The character that breaks a partial preamble is not tried as a new start.
    let mut recorder = FrameRecorder::new();
    assert!(record_all(&mut recorder, &["OOK 9 1 1 4 189 65\r\n"]).is_empty());
    assert_eq!(record_all(&mut recorder, &["OK 9 2 1 4 189 65\r\n"]), vec!["2 1 4 189 65"]);
}

#[test]
fn lone_carriage_return_stays_in_body() {
    let mut recorder = FrameRecorder::new();
    assert_eq!(record_all(&mut recorder, &["OK 9 1\r2\r\n"]), vec!["1\r2"]);
}

#[test]
fn carriage_return_swallows_the_following_character() {
    // After a carriage return that is not followed by a line feed, the next
    // character is plain text even when it is a carriage return.
    let mut recorder = FrameRecorder::new();
    assert!(record_all(&mut recorder, &["OK 9 1\r\r\n"]).is_empty());
    assert_eq!(record_all(&mut recorder, &["\r\n"]), vec!["1\r\r\n"]);
}

#[test]
fn chunk_boundaries_do_not_matter() {
    let stream = "noise OK 9 50 1 4 193 65\r\nOK 9 junk\r\nOK 9 1 1 4 189 65\r\nOK 9 7";
    let mut one_by_one = FrameRecorder::new();
    let by_char: Vec<String> = stream.chars().filter_map(|c| one_by_one.push(c)).collect();
    for split in 0..stream.len() {
        let (a, b) = stream.split_at(split);
        let mut chunked = FrameRecorder::new();
        let mut got = chunked.push_str(a);
        got.extend(chunked.push_str(b));
        assert_eq!(got, by_char);
    }
    assert_eq!(by_char, vec!["50 1 4 193 65", "junk", "1 1 4 189 65"]);
}

#[test]
fn push_str_records_a_split_terminator() {
    let mut recorder = FrameRecorder::new();
    assert!(recorder.push_str("OK 9 18 1 4 193 61\r").is_empty());
    assert_eq!(recorder.push_str("\nOK 9 1 1 4 188 64\r\n"), vec!["18 1 4 193 61", "1 1 4 188 64"]);
}

#[test]
fn state_moves_along_the_delimiters() {
    let mut s = FrameRecorderState::NotRecording;
    s.next(5, 2);
    assert_eq!(s, FrameRecorderState::Activating(0));
    for level in 1..4 {
        s.next(5, 2);
        assert_eq!(s, FrameRecorderState::Activating(level));
    }
    s.next(5, 2);
    assert_eq!(s, FrameRecorderState::Recording);
    s.next(5, 2);
    assert_eq!(s, FrameRecorderState::Terminating(0));
    s.next(5, 2);
    assert_eq!(s, FrameRecorderState::NotRecording);
}
