use rogue::common::dyn_vec::TypeInfo;
use rogue::engine::event::{EventBank, EventReader, Events};

fn read_all(reader: &mut EventReader<u8>, events: &Events, ty: u64) -> Vec<Vec<u8>> {
    let mut it = reader.read(events, ty);
    let mut out = Vec::new();
    while let Some(e) = it.next(reader) {
        out.push(e.to_vec());
    }
    out
}

#[test]
fn reader_reads_each_event_once() {
    let mut events = Events::new();
    let ty = TypeInfo::new(1, 1, 1);
    events.push(1, ty, &[10]);
    events.push(1, ty, &[11]);
    let mut reader: EventReader<u8> = EventReader::new();
    assert_eq!(read_all(&mut reader, &events, 1), vec![vec![10, 0], vec![11, 0]]);
    assert_eq!(read_all(&mut reader, &events, 1), Vec::<Vec<u8>>::new());
    events.push(1, ty, &[12]);
    assert_eq!(read_all(&mut reader, &events, 1), vec![vec![12, 0]]);
}

#[test]
fn events_last_two_frames() {
    let mut events = Events::new();
    let ty = TypeInfo::new(1, 1, 1);
    events.push(1, ty, &[1]);
    events.frame_cleanup();
    events.push(1, ty, &[2]);
    let mut late: EventReader<u8> = EventReader::new();
    assert_eq!(read_all(&mut late, &events, 1), vec![vec![1, 0], vec![2, 0]]);
    events.frame_cleanup();
    let mut later: EventReader<u8> = EventReader::new();
    assert_eq!(read_all(&mut later, &events, 1), vec![vec![2, 0]]);
    events.frame_cleanup();
    let mut latest: EventReader<u8> = EventReader::new();
    assert_eq!(read_all(&mut latest, &events, 1), Vec::<Vec<u8>>::new());
}

#[test]
fn unknown_event_type_reads_nothing() {
    let events = Events::new();
    let mut reader: EventReader<u8> = EventReader::new();
    assert_eq!(read_all(&mut reader, &events, 3), Vec::<Vec<u8>>::new());
}

#[test]
fn bank_push_and_clear() {
    let mut bank = EventBank::new(TypeInfo::new(1, 1, 1), 0);
    bank.push(&[4]);
    bank.clear();
    let mut events = Events::new();
    events.push(2, TypeInfo::new(2, 1, 1), &[5]);
    assert!(events.get_bank(2).is_some());
    assert!(events.get_bank(1).is_none());
}
