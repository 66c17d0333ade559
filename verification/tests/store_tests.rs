use weather_pipeline::buffer::find_insertion_point;
use weather_pipeline::buffer::insert_buffer;
use weather_pipeline::message::WeatherMessage;
use weather_pipeline::store::InsertError;
use weather_pipeline::store::SourceBufferStore;

fn msg(station_id: u8, created_at: i64) -> WeatherMessage {
    WeatherMessage {
        station_id,
        created_at,
        received_at: created_at + 5000,
        temp_bits: 0,
        pressure_bits: 0,
        wind_speed_bits: 0,
        wind_direction_bits: 0,
    }
}

fn snapshot(store: &SourceBufferStore, id: u8) -> Vec<WeatherMessage> {
    store.buffer_snapshot(id).expect("known station")
}

fn assert_sorted(buf: &[WeatherMessage]) {
    for w in buf.windows(2) {
        assert!(w[0].created_at < w[1].created_at);
    }
}

#[test]
fn insert_keeps_buffer_sorted() {
    let mut store = SourceBufferStore::new(&vec![7], 100);
    for t in [50i64, 10, 40, 30, 20, 60, 5] {
        assert!(store.insert_sorted(msg(7, t)).is_ok());
        assert_sorted(&snapshot(&store, 7));
    }
    let buf = snapshot(&store, 7);
    let times: Vec<i64> = buf.iter().map(|m| m.created_at).collect();
    assert_eq!(times, vec![5, 10, 20, 30, 40, 50, 60]);
}

#[test]
fn duplicate_keeps_first_received() {
    let mut store = SourceBufferStore::new(&vec![3], 100);
    let mut first = msg(3, 42);
    first.temp_bits = 1;
    let mut second = msg(3, 42);
    second.temp_bits = 2;
    assert!(store.insert_sorted(first).is_ok());
    assert!(store.insert_sorted(second).is_ok());
    let buf = snapshot(&store, 3);
    assert_eq!(buf.len(), 1);
    assert_eq!(buf[0].temp_bits, 1);
}

#[test]
fn unknown_source_rejected_and_buffers_unchanged() {
    let mut store = SourceBufferStore::new(&vec![1, 2], 100);
    assert!(store.insert_sorted(msg(1, 10)).is_ok());
    let before_1 = snapshot(&store, 1);
    let before_2 = snapshot(&store, 2);
    let result = store.insert_sorted(msg(9, 10));
    assert_eq!(result, Err(InsertError::UnknownSource));
    assert_eq!(snapshot(&store, 1), before_1);
    assert_eq!(snapshot(&store, 2), before_2);
    assert!(!store.known_source(9));
}

#[test]
fn drain_mixed_lengths() {
    let mut store = SourceBufferStore::new(&vec![1, 2, 3], 100);
    // station 1 has two messages, station 2 none, station 3 one
    assert!(store.insert_sorted(msg(1, 20)).is_ok());
    assert!(store.insert_sorted(msg(1, 10)).is_ok());
    assert!(store.insert_sorted(msg(3, 30)).is_ok());
    let group = store.drain_oldest_all();
    assert_eq!(group.station_count(), 3);
    assert_eq!(group.lookup(1), Some(Some(msg(1, 10))));
    assert_eq!(group.lookup(2), Some(None));
    assert_eq!(group.lookup(3), Some(Some(msg(3, 30))));
    assert_eq!(group.lookup(4), None);
    assert_eq!(store.buffer_len(1), Some(1));
    assert_eq!(store.buffer_len(2), Some(0));
    assert_eq!(store.buffer_len(3), Some(0));
    assert_eq!(store.buffer_len(9), None);
}

#[test]
fn drain_past_empty_yields_absent_without_error() {
    let mut store = SourceBufferStore::new(&vec![5], 100);
    assert!(store.insert_sorted(msg(5, 1)).is_ok());
    assert!(store.insert_sorted(msg(5, 2)).is_ok());
    let drained: Vec<Option<WeatherMessage>> =
        (0..4).map(|_| store.drain_oldest_all().lookup(5).unwrap()).collect();
    assert_eq!(
        drained,
        vec![Some(msg(5, 1)), Some(msg(5, 2)), None, None]
    );
    assert_eq!(store.buffer_len(5), Some(0));
}

#[test]
fn end_to_end_scrambled_arrival() {
    let stations = vec![1u8, 2, 3];
    let mut store = SourceBufferStore::new(&stations, 100);
    // five messages per station, fed in scrambled arrival order
    let arrivals = vec![
        msg(2, 300),
        msg(1, 500),
        msg(3, 100),
        msg(1, 100),
        msg(2, 100),
        msg(3, 400),
        msg(2, 500),
        msg(1, 300),
        msg(3, 200),
        msg(2, 400),
        msg(1, 200),
        msg(3, 500),
        msg(2, 200),
        msg(1, 400),
        msg(3, 300),
    ];
    assert!(store.insert_all(&arrivals).is_ok());
    for &s in &stations {
        let buf = snapshot(&store, s);
        assert_eq!(buf.len(), 5);
        assert_sorted(&buf);
    }
    for tick in 0..5 {
        let group = store.drain_oldest_all();
        assert_eq!(group.station_count(), 3);
        let expected = 100 + 100 * tick as i64;
        for &s in &stations {
            assert_eq!(group.lookup(s), Some(Some(msg(s, expected))));
        }
    }
    let empty_group = store.drain_oldest_all();
    for &s in &stations {
        assert_eq!(empty_group.lookup(s), Some(None));
    }
}

#[test]
fn insert_at_capacity_succeeds_and_keeps_order() {
    let mut store = SourceBufferStore::new(&vec![1], 2);
    assert_eq!(store.capacity(), 2);
    assert!(store.insert_sorted(msg(1, 30)).is_ok());
    assert!(store.insert_sorted(msg(1, 10)).is_ok());
    assert!(!store.needs_backpressure(1));
    // already at the soft capacity: the insert still succeeds
    assert!(store.insert_sorted(msg(1, 20)).is_ok());
    let buf = snapshot(&store, 1);
    assert_eq!(buf.len(), 3);
    assert_sorted(&buf);
    // over the soft capacity now: a writer must wait before inserting more
    assert!(store.needs_backpressure(1));
    store.drain_oldest_all();
    assert!(!store.needs_backpressure(1));
    assert_eq!(store.buffer_len(1), Some(2));
}

#[test]
fn insert_all_stops_at_first_unknown() {
    let mut store = SourceBufferStore::new(&vec![1, 2], 100);
    let batch = vec![msg(1, 10), msg(9, 20), msg(2, 30)];
    assert_eq!(store.insert_all(&batch), Err(InsertError::UnknownSource));
    // the message before the bad item landed, the one after it was never seen
    assert_eq!(store.buffer_len(1), Some(1));
    assert_eq!(store.buffer_len(2), Some(0));
}

#[test]
fn duplicate_station_ids_collapse() {
    let mut store = SourceBufferStore::new(&vec![4, 4, 8, 4], 100);
    assert!(store.known_source(4));
    assert!(store.known_source(8));
    let group = store.drain_oldest_all();
    assert_eq!(group.station_count(), 2);
}

#[test]
fn buffer_insert_and_search() {
    let mut buf: Vec<WeatherMessage> = Vec::new();
    assert!(insert_buffer(&mut buf, msg(1, 20)));
    assert!(insert_buffer(&mut buf, msg(1, 10)));
    // duplicate creation time: discarded, buffer unchanged
    assert!(!insert_buffer(&mut buf, msg(1, 20)));
    assert_eq!(buf.len(), 2);
    assert_eq!(buf[0].created_at, 10);
    assert_eq!(buf[1].created_at, 20);
    assert_eq!(find_insertion_point(&buf, 5), 0);
    assert_eq!(find_insertion_point(&buf, 15), 1);
    assert_eq!(find_insertion_point(&buf, 20), 1);
    assert_eq!(find_insertion_point(&buf, 25), 2);
}

#[test]
fn empty_store_drains_empty_groups() {
    let mut store = SourceBufferStore::new(&vec![], 10);
    assert!(!store.known_source(0));
    assert_eq!(
        store.insert_sorted(msg(0, 1)),
        Err(InsertError::UnknownSource)
    );
    let group = store.drain_oldest_all();
    assert_eq!(group.station_count(), 0);
    assert_eq!(group.lookup(0), None);
}

#[test]
fn known_source_matches_key_set() {
    let store = SourceBufferStore::new(&vec![0, 1, 2], 100);
    assert!(store.known_source(0));
    assert!(store.known_source(2));
    assert!(!store.known_source(3));
    assert_eq!(store.buffer_len(0), Some(0));
}
