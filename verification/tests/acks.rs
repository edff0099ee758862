use rakrs::protocol::ack::acknowledgements;
use rakrs::protocol::ack::runs_of;
use rakrs::protocol::ack::Ack;
use rakrs::protocol::ack::AckKind;
use rakrs::protocol::ack::Run;
use rakrs::protocol::frame::FrameError;

#[test]
fn numbers_are_written_as_the_fewest_runs() {
    assert_eq!(runs_of(&vec![]), vec![]);
    assert_eq!(runs_of(&vec![7]), vec![Run { start: 7, end: 7 }]);
    assert_eq!(
        runs_of(&vec![0, 1, 2, 4, 5, 6, 7, 8, 9]),
        vec![Run { start: 0, end: 2 }, Run { start: 4, end: 9 }]
    );
    assert_eq!(
        runs_of(&vec![1, 3, 5, 6, 0xff_ffff]),
        vec![
            Run { start: 1, end: 1 },
            Run { start: 3, end: 3 },
            Run { start: 5, end: 6 },
            Run { start: 0xff_ffff, end: 0xff_ffff }
        ]
    );
    assert_eq!(runs_of(&vec![u32::MAX - 1, u32::MAX]), vec![Run { start: u32::MAX - 1, end: u32::MAX }]);
}

#[test]
fn runs_hold_exactly_the_numbers() {
    let numbers: Vec<u32> = (0..200).filter(|n| n % 7 != 3 && n % 11 != 5).collect();
    let runs = runs_of(&numbers);
    let mut back = Vec::new();
    for run in &runs {
        assert!(run.start <= run.end);
        back.extend(run.start..=run.end);
    }
    assert_eq!(back, numbers);
    for pair in runs.windows(2) {
        assert!(pair[0].end + 1 < pair[1].start);
    }
}

#[test]
fn acknowledgement_has_the_documented_layout() {
    let ack = Ack {
        kind: AckKind::Ack,
        runs: vec![Run { start: 0, end: 2 }, Run { start: 0x01_02_03, end: 0x01_02_03 }],
    };
    assert!(ack.is_valid());
    let bytes = ack.to();
    assert_eq!(bytes, vec![0xc0, 0, 2, 0, 0, 0, 0, 2, 0, 0, 1, 3, 2, 1]);
    assert_eq!(Ack::recv(&bytes), Ok(ack));
    let nack = Ack { kind: AckKind::Nack, runs: vec![Run { start: 3, end: 3 }] };
    let bytes = nack.to();
    assert_eq!(bytes, vec![0xa0, 0, 1, 1, 3, 0, 0]);
    assert_eq!(Ack::recv(&bytes), Ok(nack));
}

#[test]
fn acknowledgement_round_trips_with_many_runs() {
    let runs: Vec<Run> = (0..1000u32).map(|i| Run { start: 3 * i, end: 3 * i + (i % 2) }).collect();
    for kind in [AckKind::Ack, AckKind::Nack] {
        let ack = Ack { kind, runs: runs.clone() };
        assert_eq!(Ack::recv(&ack.to()), Ok(ack));
    }
    let empty = Ack { kind: AckKind::Ack, runs: Vec::new() };
    assert_eq!(empty.to(), vec![0xc0, 0, 0]);
    assert_eq!(Ack::recv(&empty.to()), Ok(empty));
}

#[test]
fn malformed_acknowledgements_are_refused() {
    assert_eq!(Ack::recv(&[0xc0, 0]), Err(FrameError::Truncated));
    assert_eq!(Ack::recv(&[0x40, 0, 0]), Err(FrameError::NotOnline));
    assert_eq!(Ack::recv(&[0x84, 0, 0]), Err(FrameError::WrongKind));
    assert_eq!(Ack::recv(&[0xc0, 0, 1]), Err(FrameError::Truncated));
    assert_eq!(Ack::recv(&[0xc0, 0, 1, 1, 0, 0]), Err(FrameError::Truncated));
    assert_eq!(Ack::recv(&[0xc0, 0, 1, 0, 1, 0, 0, 2, 0]), Err(FrameError::Truncated));
    assert_eq!(Ack::recv(&[0xc0, 0, 2, 1, 1, 0, 0]), Err(FrameError::Truncated));
    assert_eq!(
        Ack::recv(&[0xe0, 0, 1, 5, 1, 0, 0, 9, 9]),
        Ok(Ack { kind: AckKind::Ack, runs: vec![Run { start: 1, end: 1 }] })
    );
}

#[test]
fn runs_that_cannot_be_written_are_recognised() {
    assert!(!Ack { kind: AckKind::Ack, runs: vec![Run { start: 2, end: 1 }] }.is_valid());
    assert!(!Ack { kind: AckKind::Ack, runs: vec![Run { start: 0, end: 0x100_0000 }] }.is_valid());
    assert!(Ack { kind: AckKind::Ack, runs: vec![Run { start: 0, end: 0xff_ffff }] }.is_valid());
}

#[test]
fn acknowledgements_are_divided_to_fit_the_budget() {
    let numbers: Vec<u32> = (0..10).map(|i| 2 * i).collect();
    let out = acknowledgements(&numbers, AckKind::Ack, 3 + 4 * 7);
    assert_eq!(out.len(), 3);
    let mut runs = Vec::new();
    for bytes in &out {
        assert!(bytes.len() <= 3 + 4 * 7);
        let ack = Ack::recv(bytes).unwrap();
        assert_eq!(ack.kind, AckKind::Ack);
        runs.extend(ack.runs);
    }
    assert_eq!(runs, runs_of(&numbers));
    assert_eq!(Ack::recv(&out[0]).unwrap().runs.len(), 4);
    assert_eq!(Ack::recv(&out[2]).unwrap().runs.len(), 2);
}

#[test]
fn acknowledgements_of_the_loss_scenario() {
    let out = acknowledgements(&vec![0, 1, 2, 4, 5, 6, 7, 8, 9], AckKind::Ack, 1372);
    assert_eq!(out, vec![vec![0xc0, 0, 2, 0, 0, 0, 0, 2, 0, 0, 0, 4, 0, 0, 9, 0, 0]]);
    let out = acknowledgements(&vec![3], AckKind::Nack, 1372);
    assert_eq!(out, vec![vec![0xa0, 0, 1, 1, 3, 0, 0]]);
}

#[test]
fn nothing_is_acknowledged_without_numbers_or_room() {
    assert!(acknowledgements(&vec![], AckKind::Ack, 1372).is_empty());
    assert!(acknowledgements(&vec![1, 2], AckKind::Ack, 9).is_empty());
    assert_eq!(acknowledgements(&vec![1, 2], AckKind::Ack, 10).len(), 1);
    assert!(acknowledgements(&vec![2, 1], AckKind::Ack, 1372).is_empty());
    assert!(acknowledgements(&vec![1, 1], AckKind::Ack, 1372).is_empty());
    assert!(acknowledgements(&vec![0x100_0000], AckKind::Ack, 1372).is_empty());
    assert_eq!(acknowledgements(&vec![0xff_ffff], AckKind::Nack, 1372).len(), 1);
}
