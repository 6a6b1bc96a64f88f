use silk_engine::midi::{parse_message, MidiEvent};

#[test]
fn midi_channel_messages() {
    assert!(matches!(
        parse_message(0, &[0x93, 60, 100]),
        Some(MidiEvent::NoteOn { channel: 3, note: 60, velocity: 100 })
    ));
    assert!(matches!(
        parse_message(0, &[0x93, 60, 0]),
        Some(MidiEvent::NoteOff { channel: 3, note: 60, velocity: 0 })
    ));
    assert!(matches!(
        parse_message(0, &[0x80, 61, 5]),
        Some(MidiEvent::NoteOff { channel: 0, note: 61, velocity: 5 })
    ));
    assert!(matches!(
        parse_message(0, &[0xA1, 1, 2]),
        Some(MidiEvent::PolyphonicAftertouch { channel: 1, note: 1, pressure: 2 })
    ));
    assert!(matches!(
        parse_message(0, &[0xBF, 7, 127]),
        Some(MidiEvent::ControlChange { channel: 15, controller: 7, value: 127 })
    ));
    assert!(matches!(parse_message(0, &[0xC2, 9]), Some(MidiEvent::ProgramChange { channel: 2, program: 9 })));
    assert!(matches!(parse_message(0, &[0xD4, 33]), Some(MidiEvent::ChannelAftertouch { channel: 4, pressure: 33 })));
}

#[test]
fn midi_pitch_bend() {
    assert!(matches!(parse_message(0, &[0xE0, 0, 0x40]), Some(MidiEvent::PitchBend { channel: 0, value: 0 })));
    assert!(matches!(parse_message(0, &[0xE0, 0, 0]), Some(MidiEvent::PitchBend { channel: 0, value: -8192 })));
    assert!(matches!(
        parse_message(0, &[0xE0, 0x7F, 0x7F]),
        Some(MidiEvent::PitchBend { channel: 0, value: 8191 })
    ));
}

#[test]
fn midi_system_raw_and_short() {
    match parse_message(5, &[0xF8, 1, 2]) {
        Some(MidiEvent::System { status, data }) => {
            assert_eq!(status, 0xF8);
            assert_eq!(data, vec![1, 2]);
        }
        _ => panic!("expected a system message"),
    }
    match parse_message(5, &[0x12, 3]) {
        Some(MidiEvent::Raw { timestamp, bytes }) => {
            assert_eq!(timestamp, 5);
            assert_eq!(bytes, vec![0x12, 3]);
        }
        _ => panic!("expected raw bytes"),
    }
    assert!(parse_message(0, &[]).is_none());
    assert!(parse_message(0, &[0x90, 60]).is_none());
    assert!(parse_message(0, &[0xC0]).is_none());
}
