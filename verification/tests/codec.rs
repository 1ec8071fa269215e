use events_backend::codec::{decode_event, encode_event};
use events_backend::event::{Event, Participant};

fn sample_event() -> Event {
    Event {
        name: "Conf".to_string(),
        date: "2025-01-01".to_string(),
        participants: vec![
            Participant {
                address: "alice".to_string(),
            },
            Participant {
                address: "bob".to_string(),
            },
        ],
    }
}

#[test]
fn round_trip_with_participants() {
    let ev = sample_event();
    let bytes = encode_event(&ev);
    let back = decode_event(&bytes).expect("own encoding must decode");
    assert_eq!(back, ev);
}

#[test]
fn round_trip_without_participants() {
    let ev = Event {
        name: String::new(),
        date: "later".to_string(),
        participants: Vec::new(),
    };
    let bytes = encode_event(&ev);
    assert_eq!(decode_event(&bytes), Some(ev));
}

#[test]
fn round_trip_keeps_non_ascii_text() {
    let ev = Event {
        name: "Gala \u{1F389}".to_string(),
        date: "2025-12-31".to_string(),
        participants: vec![Participant {
            address: "zo\u{eb}".to_string(),
        }],
    };
    let bytes = encode_event(&ev);
    assert_eq!(decode_event(&bytes), Some(ev));
}

#[test]
fn decode_rejects_truncated_input() {
    let ev = sample_event();
    let mut bytes = encode_event(&ev);
    bytes.pop();
    assert!(decode_event(&bytes).is_none());
    assert!(decode_event(&vec![1, 2, 3]).is_none());
    assert!(decode_event(&Vec::new()).is_none());
}

#[test]
fn decode_rejects_trailing_bytes() {
    let ev = sample_event();
    let mut bytes = encode_event(&ev);
    bytes.push(0);
    assert!(decode_event(&bytes).is_none());
}
