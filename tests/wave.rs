use wave_rack::page_manager::{PageBehavior, PageManager};
use wave_rack::track_loader::{
    loader_kind, push_value_to_track, track_from_bytes, LoaderKind, track_to_bytes, wave_value_at, Sensor, TrackFileLoader,
    TrackSensorReader,
};
use wave_rack::wave_container::WaveContainer;

fn container_with(track: Vec<i32>) -> WaveContainer {
    let mut w = WaveContainer::new(2);
    w.wave_track[1] = track;
    w.select_track(1);
    w
}

#[test]
fn new_container_is_empty() {
    let w = WaveContainer::new(3);
    assert_eq!(w.wave_track.len(), 3);
    assert!(w.wave_track.iter().all(|t| t.is_empty()));
    assert_eq!(w.data_input_port, vec![0, 0, 0]);
    assert_eq!(w.data_output_port, vec![0, 0, 0]);
    assert_eq!(w.recording_flag, vec![false, false, false]);
}

#[test]
fn copy_between_marks() {
    let mut w = container_with(vec![1, 2, 3, 4, 5]);
    w.pointer = 1;
    w.mark_in_flag();
    w.pointer = 3;
    w.mark_out_flag();
    w.copy_in_out_track();
    assert_eq!(w.in_out_buffer, vec![2, 3, 4]);
    assert_eq!((w.in_flag, w.out_flag), (1, 3));
}

#[test]
fn copy_without_marks_keeps_clipboard() {
    let mut w = container_with(vec![1, 2, 3]);
    w.in_out_buffer = vec![9];
    w.mark_in_flag();
    w.cancel_in_out_flag();
    w.copy_in_out_track();
    assert_eq!(w.in_out_buffer, vec![9]);
}

#[test]
fn paste_overwrites_and_grows() {
    let mut w = container_with(vec![1, 2, 3]);
    w.in_out_buffer = vec![7, 8];
    w.pointer = 1;
    w.paste_in_out_track();
    assert_eq!(w.wave_track[1], vec![1, 7, 8]);
    w.pointer = 5;
    w.paste_in_out_track();
    assert_eq!(w.wave_track[1], vec![1, 7, 8, 0, 0, 7, 8]);
    assert!(w.wave_track[0].is_empty());
}

#[test]
fn insert_at_pointer() {
    let mut w = container_with(vec![1, 2, 3]);
    w.in_out_buffer = vec![7, 8];
    w.pointer = 1;
    w.insert_in_out_track();
    assert_eq!(w.wave_track[1], vec![1, 7, 8, 2, 3]);
    w.pointer = 5;
    w.insert_in_out_track();
    assert_eq!(w.wave_track[1], vec![1, 7, 8, 2, 3, 7, 8]);
}

#[test]
fn track_bytes_little_endian() {
    let bytes = track_to_bytes(&vec![1, -2, 0x01020304]);
    assert_eq!(bytes, vec![1, 0, 0, 0, 0xfe, 0xff, 0xff, 0xff, 4, 3, 2, 1]);
    assert_eq!(track_from_bytes(&bytes), vec![1, -2, 0x01020304]);
}

#[test]
fn track_bytes_round_trip_and_leftover() {
    let track = vec![i32::MIN, -1, 0, i32::MAX, 123456];
    let mut bytes = track_to_bytes(&track);
    assert_eq!(track_from_bytes(&bytes), track);
    bytes.push(7);
    bytes.push(7);
    assert_eq!(track_from_bytes(&bytes), track);
    assert!(track_from_bytes(&vec![1, 2, 3]).is_empty());
}

#[test]
fn loaders_name_their_track() {
    assert_eq!(TrackFileLoader::new(3).linked_track, 3);
    let r = TrackSensorReader::new(1, Sensor::Simulator);
    assert_eq!(r.linked_track, 1);
    assert_eq!(r.sensor, Sensor::Simulator);
}

struct CountingPage {
    keys: Vec<u8>,
}

impl PageBehavior for CountingPage {
    fn render(&self) {}

    fn handle_key_event(&mut self, key: u8) {
        self.keys.push(key);
    }
}

#[test]
fn page_manager_switches_and_routes_keys() {
    let pages = vec![CountingPage { keys: vec![] }, CountingPage { keys: vec![] }];
    let mut m = PageManager::new(pages);
    assert_eq!(m.current_page_index, 0);
    m.switch_to_page(5);
    assert_eq!(m.current_page_index, 0);
    m.switch_to_page(1);
    m.handle_key_event(4);
    m.render_current_page();
    assert_eq!(m.current_page_index, 1);
    assert!(m.pages[0].keys.is_empty());
    assert_eq!(m.pages[1].keys, vec![4]);
}

#[test]
fn wave_value_repeats_the_period() {
    let period = vec![3, 1, 4];
    assert_eq!(wave_value_at(&period, 0), 3);
    assert_eq!(wave_value_at(&period, 4), 1);
    assert_eq!(wave_value_at(&period, 8), 4);
    let mut track = vec![0, 0, 0];
    push_value_to_track(&mut track, 1, 9);
    assert_eq!(track, vec![0, 9, 0]);
}

#[test]
fn loader_names() {
    assert_eq!(loader_kind("file_loader"), LoaderKind::FileLoader);
    assert_eq!(loader_kind("wave_generator"), LoaderKind::WaveGenerator);
    assert_eq!(loader_kind("sensor_reader"), LoaderKind::Unset);
    assert_eq!(loader_kind(""), LoaderKind::Unset);
}

#[test]
fn paste_back_at_in_mark_keeps_track() {
    let mut w = container_with(vec![4, 5, 6, 7]);
    w.pointer = 1;
    w.mark_in_flag();
    w.pointer = 2;
    w.mark_out_flag();
    w.copy_in_out_track();
    w.pointer = 1;
    w.paste_in_out_track();
    assert_eq!(w.wave_track[1], vec![4, 5, 6, 7]);
    w.insert_in_out_track();
    assert_eq!(w.wave_track[1], vec![4, 5, 6, 5, 6, 7]);
}
