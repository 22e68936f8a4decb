use logger::config::MmapConfig;
use logger::export::{export_range, ExportError, HourRange};
use logger::record::{encode_record, file_lines};
use logger::region::find_boundary;
use logger::rotation::{rotation_key, RotationKey};
use logger::store::{FlushPlan, LogStore, Offer};
use rand::seq::IndexedRandom;

// 2025-05-20 08:00:00 at UTC+8.
const MAY_20_0800: i64 = 1747699200000;
const HOUR: i64 = 3_600_000;

/// A store over in-memory files, driven the way the file-backed writer
/// drives it.
struct Sim {
    store: LogStore,
    files: Vec<(RotationKey, Vec<u8>)>,
    mapped: Option<usize>,
    clock_ms: u64,
    epoch_ms: i64,
    syncs: usize,
}

impl Sim {
    fn new(config: MmapConfig) -> Sim {
        Sim {
            store: LogStore::new(config, 0),
            files: Vec::new(),
            mapped: None,
            clock_ms: 0,
            epoch_ms: MAY_20_0800,
            syncs: 0,
        }
    }

    fn flush(&mut self) {
        match self.store.flush_plan(self.epoch_ms) {
            FlushPlan::Idle => {}
            FlushPlan::NoCivilTime => panic!("no civil time"),
            FlushPlan::Write { key, switch } => {
                if switch {
                    let idx = match self.files.iter().position(|(k, _)| *k == key) {
                        Some(i) => i,
                        None => {
                            self.files.push((key, Vec::new()));
                            self.files.len() - 1
                        }
                    };
                    let chunk = self.store.chunk();
                    let file = &mut self.files[idx].1;
                    file.resize(file.len() + chunk, 0);
                    self.mapped = Some(idx);
                    self.store.switch_to(key);
                }
                let idx = self.mapped.unwrap();
                let region = &mut self.files[idx].1;
                if let Err(grow) = self.store.place(region) {
                    region.resize(region.len() + grow as usize, 0);
                    self.store.place(region).unwrap();
                }
                self.syncs += 1;
                self.store.commit(self.clock_ms);
            }
        }
    }

    fn write(&mut self, line: &str) {
        let record = encode_record(self.store.config(), line);
        loop {
            match self.store.offer(&record, self.clock_ms) {
                Offer::FlushFirst => self.flush(),
                Offer::Appended { flush_now } => {
                    if flush_now {
                        self.flush();
                    }
                    break;
                }
            }
        }
    }

    fn file(&self, key: RotationKey) -> Option<&Vec<u8>> {
        self.files.iter().find(|(k, _)| *k == key).map(|(_, f)| f)
    }

    fn export(&self, start_ms: i64, end_ms: i64) -> Result<Vec<String>, ExportError> {
        let range: HourRange = export_range(start_ms, end_ms)?;
        let mut out = Vec::new();
        for k in 0..range.count {
            let key = rotation_key(range.hour_at(k), self.store.config().is_encrypt()).unwrap();
            if let Some(bytes) = self.file(key) {
                out.extend(file_lines(self.store.config(), bytes));
            }
        }
        Ok(out)
    }
}

fn string_by_length(length: usize) -> String {
    let chars: Vec<char> =
        "abcdefghijklmnopqrstuvwxyzABCDEFGHIJKLMNOPQRSTUVWXYZ0123456789".chars().collect();
    let mut rng = rand::rng();
    let random_string: String = (0..length).map(|_| *chars.choose(&mut rng).unwrap()).collect();
    format!("start-{}-end", random_string)
}

fn check_start_end(lines: &[String], count: usize) {
    assert_eq!(lines.len(), count);
    for line in lines {
        assert!(line.starts_with("start"));
        assert!(line.ends_with("end"));
    }
}

#[test]
fn empty_flush_does_nothing() {
    let mut sim = Sim::new(MmapConfig::new("12345", false));
    assert_eq!(sim.store.flush_plan(MAY_20_0800), FlushPlan::Idle);
    sim.clock_ms = 99;
    sim.flush();
    assert_eq!(sim.syncs, 0);
    assert!(sim.files.is_empty());
    // The flush time did not move: at 5000 ms the interval since 0 is over.
    sim.clock_ms = 5000;
    assert_eq!(sim.store.offer(b"x\n", 5000), Offer::Appended { flush_now: true });
}

#[test]
fn small_records_wait_for_the_flush_size() {
    let mut sim = Sim::new(MmapConfig::new("12345", false));
    sim.write("hello");
    assert_eq!(sim.syncs, 0);
    assert!(!sim.store.is_empty());
    sim.flush();
    assert_eq!(sim.syncs, 1);
    assert!(sim.store.is_empty());
    let key = rotation_key(MAY_20_0800, false).unwrap();
    let file = sim.file(key).unwrap();
    assert_eq!(file.len(), 128 * 1024);
    assert_eq!(&file[..6], b"hello\n");
    assert_eq!(find_boundary(file), 6);
}

#[test]
fn offer_asks_for_a_flush_when_full() {
    let mut config = MmapConfig::new("k", false);
    config.set_buffer_size(1024);
    let mut store = LogStore::new(config, 0);
    let big = vec![b'a'; 1000];
    let mut rec = big.clone();
    rec.push(b'\n');
    assert_eq!(store.offer(&rec, 0), Offer::Appended { flush_now: false });
    assert_eq!(store.offer(&rec, 0), Offer::FlushFirst);
    store.commit(1);
    assert_eq!(store.offer(&rec, 1), Offer::Appended { flush_now: false });
    // A record larger than the whole buffer still goes in alone.
    store.commit(2);
    let mut huge = vec![b'b'; 5000];
    huge.push(b'\n');
    assert_eq!(store.offer(&huge, 2), Offer::Appended { flush_now: false });
    assert_eq!(store.offer(b"c\n", 2), Offer::FlushFirst);
}

#[test]
fn flush_interval_triggers_a_flush() {
    let mut store = LogStore::new(MmapConfig::new("k", false), 1000);
    assert_eq!(store.offer(b"a\n", 5999), Offer::Appended { flush_now: false });
    assert_eq!(store.offer(b"b\n", 6000), Offer::Appended { flush_now: true });
}

#[test]
fn place_grows_by_whole_chunks() {
    let mut config = MmapConfig::new("k", false);
    config.set_buffer_size(1024);
    let mut store = LogStore::new(config, 0);
    let mut rec = vec![b'z'; 2999];
    rec.push(b'\n');
    store.offer(&rec, 0);
    let mut region = vec![0u8; 1024];
    region[0] = b'q';
    region[1] = b'\n';
    // 2 + 3000 bytes need 1978 more: two chunks.
    assert_eq!(store.place(&mut region), Err(2048));
    assert_eq!(region[2], 0);
    region.resize(1024 + 2048, 0);
    assert_eq!(store.place(&mut region), Ok(3002));
    assert_eq!(find_boundary(&region), 3002);
}

#[test]
fn boundary_equals_bytes_written() {
    let mut config = MmapConfig::new("12345", false);
    config.set_buffer_size(1024);
    config.set_flush_size(1024);
    let mut sim = Sim::new(config);
    let mut total = 0;
    for i in 0..500 {
        let line = format!("line number {}", i);
        total += line.len() + 1;
        sim.write(&line);
        if i % 37 == 0 {
            sim.flush();
        }
    }
    sim.flush();
    let key = rotation_key(MAY_20_0800, false).unwrap();
    let file = sim.file(key).unwrap();
    assert_eq!(find_boundary(file), total);
    assert_eq!(file.len() % 1024, 0);
    let lines = file_lines(sim.store.config(), file);
    assert_eq!(lines.len(), 500);
    assert_eq!(lines[0], "line number 0");
    assert_eq!(lines[499], "line number 499");
}

#[test]
fn writes_in_two_hours_land_in_two_files() {
    let mut sim = Sim::new(MmapConfig::new("12345", false));
    sim.write("first hour");
    sim.flush();
    sim.epoch_ms += HOUR;
    sim.write("second hour");
    sim.flush();
    assert_eq!(sim.files.len(), 2);
    let k8 = rotation_key(MAY_20_0800, false).unwrap();
    let k9 = rotation_key(MAY_20_0800 + HOUR, false).unwrap();
    assert_eq!(k8.file_name(), "20250520_08_plain.log");
    assert_eq!(k9.file_name(), "20250520_09_plain.log");
    assert_eq!(file_lines(sim.store.config(), sim.file(k8).unwrap()), vec!["first hour"]);
    assert_eq!(file_lines(sim.store.config(), sim.file(k9).unwrap()), vec!["second hour"]);
}

#[test]
fn flush_plan_switches_only_on_a_new_hour() {
    let mut store = LogStore::new(MmapConfig::new("k", true), 0);
    store.offer(b"x\n", 0);
    let key = rotation_key(MAY_20_0800, true).unwrap();
    assert_eq!(store.flush_plan(MAY_20_0800), FlushPlan::Write { key, switch: true });
    store.switch_to(key);
    assert_eq!(store.flush_plan(MAY_20_0800 + 10), FlushPlan::Write { key, switch: false });
    let next = rotation_key(MAY_20_0800 + HOUR, true).unwrap();
    assert_eq!(store.flush_plan(MAY_20_0800 + HOUR), FlushPlan::Write { key: next, switch: true });
    assert_eq!(store.flush_plan(i64::MAX), FlushPlan::NoCivilTime);
}

#[test]
fn test_export_plain_log() {
    let count = 100;
    let length = 100;
    let mut sim = Sim::new(MmapConfig::new("12345", false));
    for _ in 0..count {
        sim.write(string_by_length(length).as_str());
    }
    sim.flush();
    // The whole civil day of 2025-05-20.
    let start = MAY_20_0800 - 8 * HOUR;
    let end = start + 24 * HOUR - 1;
    let lines = sim.export(start, end).unwrap();
    check_start_end(&lines, 100);
}

#[test]
fn test_export_encrypt_log() {
    let count = 100;
    let length = 100;
    let mut sim = Sim::new(MmapConfig::new("12345", true));
    for _ in 0..count {
        sim.write(string_by_length(length).as_str());
    }
    sim.flush();
    let start = MAY_20_0800 - 8 * HOUR;
    let end = start + 24 * HOUR - 1;
    let lines = sim.export(start, end).unwrap();
    check_start_end(&lines, 100);
}

#[test]
fn end_to_end_encrypted_day() {
    let mut sim = Sim::new(MmapConfig::new("12345", true));
    let mut written = Vec::new();
    for _ in 0..100 {
        let line = string_by_length(62);
        sim.write(&line);
        written.push(line);
    }
    sim.flush();
    let key = rotation_key(MAY_20_0800, true).unwrap();
    let stored = sim.file(key).unwrap();
    // Stored records are hexadecimal, not the plain lines.
    assert!(!String::from_utf8_lossy(stored).contains("start-"));
    let start = MAY_20_0800 - 8 * HOUR;
    let lines = sim.export(start, start + 24 * HOUR - 1).unwrap();
    check_start_end(&lines, 100);
    assert_eq!(lines, written);
}

fn over_hours(encrypt: bool) {
    // One line in each hourly file from 22:00 on 2025-05-19 to 08:00 on
    // 2025-05-20, written in that order.
    let mut sim = Sim::new(MmapConfig::new("12345", encrypt));
    let first = MAY_20_0800 - 10 * HOUR;
    let mut expected = Vec::new();
    for h in 0..11 {
        sim.epoch_ms = first + h * HOUR;
        let key = rotation_key(sim.epoch_ms, encrypt).unwrap();
        let line = key.file_name();
        sim.write(&line);
        sim.flush();
        expected.push(line);
    }
    assert_eq!(expected[0], if encrypt { "20250519_22_encrypt.log" } else { "20250519_22_plain.log" });
    assert_eq!(expected[10], if encrypt { "20250520_08_encrypt.log" } else { "20250520_08_plain.log" });
    // From 08:00 the day before to 12:00.
    let start = MAY_20_0800 - 24 * HOUR;
    let end = MAY_20_0800 + 4 * HOUR;
    let lines = sim.export(start, end).unwrap();
    assert_eq!(lines, expected);
    assert_eq!(lines.len(), 11);
}

#[test]
fn test_export_over_hour_plain() {
    over_hours(false);
}

#[test]
fn test_export_over_hour_encrypt() {
    over_hours(true);
}

#[test]
fn export_range_covers_whole_hours() {
    let r = export_range(MAY_20_0800 + 30 * 60_000, MAY_20_0800 + 2 * HOUR + 10 * 60_000).unwrap();
    assert_eq!(r, HourRange { first_ms: MAY_20_0800, count: 3 });
    assert_eq!(r.hour_at(2), MAY_20_0800 + 2 * HOUR);
    let r = export_range(MAY_20_0800, MAY_20_0800).unwrap();
    assert_eq!(r.count, 1);
    let r = export_range(MAY_20_0800, MAY_20_0800 - HOUR).unwrap();
    assert_eq!(r.count, 0);
    // Before the epoch the hour still starts on the hour.
    let r = export_range(-1, 0).unwrap();
    assert_eq!(r, HourRange { first_ms: -HOUR, count: 2 });
}

#[test]
fn export_rejects_timestamps_without_a_date() {
    assert_eq!(export_range(i64::MIN, 0), Err(ExportError::InvalidStart));
    assert_eq!(export_range(0, i64::MAX), Err(ExportError::InvalidEnd));
}

#[test]
fn undecodable_records_read_as_empty_lines() {
    let config = MmapConfig::new("12345", true);
    let mut file = encode_record(&config, "good");
    file.extend_from_slice(b"not hex\n");
    file.extend_from_slice(&encode_record(&config, "also good"));
    file.extend_from_slice(&[0u8; 64]);
    let lines = file_lines(&config, &file);
    assert_eq!(lines, vec!["good", "", "also good"]);

    let plain = MmapConfig::new("12345", false);
    let bytes = [b'a', b'\n', 0xff, 0xfe, b'\n', b'\n', b'b', 0, 0];
    assert_eq!(file_lines(&plain, &bytes), vec!["a", "", "b"]);
}

#[test]
fn test_write_plain_log() {
    let count = 10000;
    let length = 100;
    let mut sim = Sim::new(MmapConfig::new("12345", false));
    let mut total = 0;
    for _ in 0..count {
        let line = string_by_length(length);
        total += line.len() + 1;
        sim.write(line.as_str());
    }
    sim.flush();
    let key = rotation_key(MAY_20_0800, false).unwrap();
    assert_eq!(find_boundary(sim.file(key).unwrap()), total);
}

#[test]
fn test_write_encrypt_log() {
    let count = 10000;
    let length = 100;
    let mut sim = Sim::new(MmapConfig::new("12345", true));
    for _ in 0..count {
        sim.write(string_by_length(length).as_str());
    }
    sim.flush();
    let key = rotation_key(MAY_20_0800, true).unwrap();
    let lines = file_lines(sim.store.config(), sim.file(key).unwrap());
    check_start_end(&lines, 10000);
}
