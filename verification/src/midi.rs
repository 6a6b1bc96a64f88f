use vstd::prelude::*;

verus! {

/// A MIDI message.
#[derive(Debug, Clone)]
pub enum MidiEvent {
    NoteOff { channel: u8, note: u8, velocity: u8 },
    NoteOn { channel: u8, note: u8, velocity: u8 },
    PolyphonicAftertouch { channel: u8, note: u8, pressure: u8 },
    ControlChange { channel: u8, controller: u8, value: u8 },
    ProgramChange { channel: u8, program: u8 },
    ChannelAftertouch { channel: u8, pressure: u8 },
    PitchBend { channel: u8, value: i16 },
    System { status: u8, data: Vec<u8> },
    Raw { timestamp: u64, bytes: Vec<u8> },
}

/// A MIDI message with its bytes taken by their view.
pub enum MidiModel {
    NoteOff(u8, u8, u8),
    NoteOn(u8, u8, u8),
    PolyphonicAftertouch(u8, u8, u8),
    ControlChange(u8, u8, u8),
    ProgramChange(u8, u8),
    ChannelAftertouch(u8, u8),
    PitchBend(u8, i16),
    System(u8, Seq<u8>),
    Raw(u64, Seq<u8>),
}

impl View for MidiEvent {
    type V = MidiModel;

    open spec fn view(&self) -> MidiModel {
        match self {
            MidiEvent::NoteOff { channel, note, velocity } => MidiModel::NoteOff(*channel, *note, *velocity),
            MidiEvent::NoteOn { channel, note, velocity } => MidiModel::NoteOn(*channel, *note, *velocity),
            MidiEvent::PolyphonicAftertouch { channel, note, pressure } => MidiModel::PolyphonicAftertouch(
                *channel,
                *note,
                *pressure,
            ),
            MidiEvent::ControlChange { channel, controller, value } => MidiModel::ControlChange(
                *channel,
                *controller,
                *value,
            ),
            MidiEvent::ProgramChange { channel, program } => MidiModel::ProgramChange(*channel, *program),
            MidiEvent::ChannelAftertouch { channel, pressure } => MidiModel::ChannelAftertouch(*channel, *pressure),
            MidiEvent::PitchBend { channel, value } => MidiModel::PitchBend(*channel, *value),
            MidiEvent::System { status, data } => MidiModel::System(*status, data@),
            MidiEvent::Raw { timestamp, bytes } => MidiModel::Raw(*timestamp, bytes@),
        }
    }
}

/// The 14-bit pitch bend of data bytes `lsb` and `msb`, centred on 0.
pub open spec fn bend_value(lsb: u8, msb: u8) -> i16 {
    ((((msb as u16) << 7u16) | lsb as u16) as i16 - 8192) as i16
}

/// The message that the bytes `m` received at `ts` make: a channel message by the high four bits
/// of its status byte, the low four naming the channel, a note on of velocity 0 being a note
/// off; a system message for status `0xFn`; the raw bytes for a status below `0x80`. `None`
/// where no status byte is, or a channel message lacks data bytes.
pub open spec fn midi_parse(ts: u64, m: Seq<u8>) -> Option<MidiModel> {
    if m.len() == 0 {
        None
    } else {
        let status = m[0];
        let kind = status >> 4u8;
        let channel = status & 0x0F;
        let d = m.drop_first();
        if kind == 0x8 || kind == 0x9 || kind == 0xA || kind == 0xB || kind == 0xE {
            if d.len() < 2 {
                None
            } else if kind == 0x8 || (kind == 0x9 && d[1] == 0) {
                Some(MidiModel::NoteOff(channel, d[0], d[1]))
            } else if kind == 0x9 {
                Some(MidiModel::NoteOn(channel, d[0], d[1]))
            } else if kind == 0xA {
                Some(MidiModel::PolyphonicAftertouch(channel, d[0], d[1]))
            } else if kind == 0xB {
                Some(MidiModel::ControlChange(channel, d[0], d[1]))
            } else {
                Some(MidiModel::PitchBend(channel, bend_value(d[0], d[1])))
            }
        } else if kind == 0xC || kind == 0xD {
            if d.len() < 1 {
                None
            } else if kind == 0xC {
                Some(MidiModel::ProgramChange(channel, d[0]))
            } else {
                Some(MidiModel::ChannelAftertouch(channel, d[0]))
            }
        } else if kind == 0xF {
            Some(MidiModel::System(status, d))
        } else {
            Some(MidiModel::Raw(ts, m))
        }
    }
}

fn copy_bytes(s: &[u8], from: usize) -> (r: Vec<u8>)
    requires
        from <= s@.len(),
    ensures
        r@ == s@.subrange(from as int, s@.len() as int),
{
    let mut r: Vec<u8> = Vec::new();
    let mut i: usize = from;
    while i < s.len()
        invariant
            from <= i <= s@.len(),
            r@ == s@.subrange(from as int, i as int),
        decreases s@.len() - i,
    {
        r.push(s[i]);
        i = i + 1;
        assert(r@ =~= s@.subrange(from as int, i as int));
    }
    r
}

/// Reads the message `message` received at `timestamp`, as `midi_parse` says.
pub fn parse_message(timestamp: u64, message: &[u8]) -> (r: Option<MidiEvent>)
    ensures
        match midi_parse(timestamp, message@) {
            None => r is None,
            Some(mm) => r matches Some(e) && e@ == mm,
        },
{
    if message.len() == 0 {
        return None;
    }
    let status = message[0];
    let kind = status >> 4u8;
    let channel = status & 0x0F;
    let n = message.len() - 1;
    assert(message@.drop_first() =~= message@.subrange(1, message@.len() as int));
    assert(message@ =~= message@.subrange(0, message@.len() as int));
    if kind == 0x8 || kind == 0x9 || kind == 0xA || kind == 0xB || kind == 0xE {
        if n < 2 {
            return None;
        }
        let (a, b) = (message[1], message[2]);
        if kind == 0x8 || (kind == 0x9 && b == 0) {
            Some(MidiEvent::NoteOff { channel, note: a, velocity: b })
        } else if kind == 0x9 {
            Some(MidiEvent::NoteOn { channel, note: a, velocity: b })
        } else if kind == 0xA {
            Some(MidiEvent::PolyphonicAftertouch { channel, note: a, pressure: b })
        } else if kind == 0xB {
            Some(MidiEvent::ControlChange { channel, controller: a, value: b })
        } else {
            let raw: u16 = ((b as u16) << 7u16) | a as u16;
            assert(((b as u16) << 7u16) | a as u16 <= 0x7FFF) by (bit_vector);
            let value: i16 = raw as i16 - 8192;
            assert(value == bend_value(a, b));
            Some(MidiEvent::PitchBend { channel, value })
        }
    } else if kind == 0xC || kind == 0xD {
        if n < 1 {
            return None;
        }
        if kind == 0xC {
            Some(MidiEvent::ProgramChange { channel, program: message[1] })
        } else {
            Some(MidiEvent::ChannelAftertouch { channel, pressure: message[1] })
        }
    } else if kind == 0xF {
        Some(MidiEvent::System { status, data: copy_bytes(message, 1) })
    } else {
        Some(MidiEvent::Raw { timestamp, bytes: copy_bytes(message, 0) })
    }
}


/// A pitch bend carries a 14-bit value, the most significant seven bits in the second data byte
/// and the least significant seven in the first, centred on 8192: for 7-bit data bytes the value
/// is `msb * 128 + lsb - 8192`, from -8192 up to 8191.
pub proof fn lemma_bend_value_14_bit(lsb: u8, msb: u8)
    requires
        lsb < 0x80,
        msb < 0x80,
    ensures
        bend_value(lsb, msb) as int == msb as int * 128 + lsb as int - 8192,
        -8192 <= bend_value(lsb, msb) <= 8191,
{
    assert((((msb as u16) << 7u16) | lsb as u16) == msb as u16 * 128 + lsb as u16) by (bit_vector)
        requires
            lsb < 0x80,
            msb < 0x80,
    ;
}

proof fn lemma_status_nibbles(kind: u8, c: u8)
    requires
        kind < 16,
        c < 16,
    ensures
        ((kind * 16 + c) as u8) >> 4u8 == kind,
        ((kind * 16 + c) as u8) & 0x0F == c,
{
    assert((((kind * 16 + c) as u8) >> 4u8 == kind) && (((kind * 16 + c) as u8) & 0x0F == c)) by (bit_vector)
        requires
            kind < 16,
            c < 16,
    ;
}

/// A channel message is its status byte `kind * 16 + channel` and its data bytes: with data
/// bytes `a` and `b`, status `0x8c` is a note off and `0x9c` a note on (a note off where the
/// velocity `b` is 0), `0xAc` polyphonic aftertouch, `0xBc` a control change, `0xEc` a pitch bend
/// of `b * 128 + a - 8192`; with one data byte, `0xCc` a program change and `0xDc` channel
/// aftertouch; each of channel `c`.
pub proof fn lemma_channel_messages(ts: u64, c: u8, a: u8, b: u8)
    requires
        c < 16,
        a < 0x80,
        b < 0x80,
    ensures
        midi_parse(ts, seq![(0x80 + c) as u8, a, b]) == Some(MidiModel::NoteOff(c, a, b)),
        midi_parse(ts, seq![(0x90 + c) as u8, a, b]) == Some(
            if b == 0 {
                MidiModel::NoteOff(c, a, b)
            } else {
                MidiModel::NoteOn(c, a, b)
            },
        ),
        midi_parse(ts, seq![(0xA0 + c) as u8, a, b]) == Some(MidiModel::PolyphonicAftertouch(c, a, b)),
        midi_parse(ts, seq![(0xB0 + c) as u8, a, b]) == Some(MidiModel::ControlChange(c, a, b)),
        midi_parse(ts, seq![(0xE0 + c) as u8, a, b]) matches Some(MidiModel::PitchBend(ch, v)) && ch == c && v
            as int == b as int * 128 + a as int - 8192,
        midi_parse(ts, seq![(0xC0 + c) as u8, a]) == Some(MidiModel::ProgramChange(c, a)),
        midi_parse(ts, seq![(0xD0 + c) as u8, a]) == Some(MidiModel::ChannelAftertouch(c, a)),
{
    lemma_status_nibbles(8, c);
    lemma_status_nibbles(9, c);
    lemma_status_nibbles(0xA, c);
    lemma_status_nibbles(0xB, c);
    lemma_status_nibbles(0xC, c);
    lemma_status_nibbles(0xD, c);
    lemma_status_nibbles(0xE, c);
    lemma_bend_value_14_bit(a, b);
    assert(seq![(0x80 + c) as u8, a, b].drop_first() =~= seq![a, b]);
    assert(seq![(0x90 + c) as u8, a, b].drop_first() =~= seq![a, b]);
    assert(seq![(0xA0 + c) as u8, a, b].drop_first() =~= seq![a, b]);
    assert(seq![(0xB0 + c) as u8, a, b].drop_first() =~= seq![a, b]);
    assert(seq![(0xE0 + c) as u8, a, b].drop_first() =~= seq![a, b]);
    assert(seq![(0xC0 + c) as u8, a].drop_first() =~= seq![a]);
    assert(seq![(0xD0 + c) as u8, a].drop_first() =~= seq![a]);
}

} // verus!
