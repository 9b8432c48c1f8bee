use walrus::log::config::{Config, InitSegment, DEFAULT_MAX_BYTES};
use walrus::log::error::LogError;
use walrus::log::log::{read_file, setup_log, FileImage, Log};
use walrus::log::segment::Record;

fn conf(max_store_bytes: u64, max_index_bytes: u64, initial_offset: u64) -> Config {
    Config { segment: InitSegment { max_store_bytes, max_index_bytes, initial_offset } }
}

fn open(config: Config) -> Log {
    Log::new("data".to_string(), config, Vec::new()).unwrap()
}

fn append(log: &mut Log, value: &[u8]) -> Result<u64, LogError> {
    let mut record = Record { value: value.to_vec(), offset: 77 };
    log.append(&mut record)
}

fn file(name: &str, data: &[u8]) -> FileImage {
    FileImage { name: name.to_string(), data: data.to_vec() }
}

#[test]
fn zero_limits_are_replaced_by_the_default() {
    assert_eq!(DEFAULT_MAX_BYTES, 1024);
    let log = open(conf(0, 0, 3));
    assert_eq!(log.config.segment.max_store_bytes, 1024);
    assert_eq!(log.config.segment.max_index_bytes, 1024);
    assert_eq!(log.config.segment.initial_offset, 3);
    let kept = conf(5, 7, 0).with_defaults();
    assert_eq!(kept.segment.max_store_bytes, 5);
    assert_eq!(kept.segment.max_index_bytes, 7);
}

#[test]
fn new_log_starts_with_one_segment_at_the_initial_offset() {
    let log = open(conf(1024, 1024, 100));
    assert_eq!(log.dir, "data");
    assert!(log.segments.is_empty());
    let active = log.active_segment.as_ref().unwrap();
    assert_eq!(active.base_offset(), 100);
    assert_eq!(active.next_offset(), 100);
    assert_eq!(log.first_offset(), 100);
    assert_eq!(log.next_offset(), 100);
}

#[test]
fn offsets_are_assigned_in_strictly_increasing_order() {
    let mut log = open(conf(64, 36, 100));
    let mut last = None;
    for i in 0..40u64 {
        let offset = append(&mut log, format!("message {}", i).as_bytes()).unwrap();
        assert_eq!(offset, 100 + i);
        if let Some(before) = last {
            assert!(offset > before);
        }
        last = Some(offset);
    }
}

#[test]
fn every_appended_record_stays_readable() {
    let mut log = open(conf(50, 48, 0));
    for i in 0..30u64 {
        append(&mut log, format!("payload {}", i).as_bytes()).unwrap();
        for j in 0..=i {
            let record = log.read(j).unwrap();
            assert_eq!(record.offset, j);
            assert_eq!(record.value, format!("payload {}", j).into_bytes());
        }
    }
}

#[test]
fn append_then_read_gives_the_value_back() {
    let mut log = open(conf(1 << 20, 1 << 20, 0));
    let values: Vec<Vec<u8>> =
        vec![vec![], vec![0], vec![0xff; 3], (0..=255u8).collect(), vec![b'x'; 5000]];
    for value in values {
        let offset = append(&mut log, &value).unwrap();
        let record = log.read(offset).unwrap();
        assert_eq!(record.value, value);
        assert_eq!(record.offset, offset);
    }
}

#[test]
fn segments_are_contiguous() {
    let mut log = open(conf(40, 1024, 7));
    for i in 0..25u64 {
        append(&mut log, format!("record number {}", i).as_bytes()).unwrap();
    }
    assert!(log.segments.len() >= 2);
    assert_eq!(log.segments[0].base_offset(), 7);
    for pair in log.segments.windows(2) {
        assert_eq!(pair[0].next_offset(), pair[1].base_offset());
        assert!(pair[0].base_offset() < pair[0].next_offset());
    }
    let active = log.active_segment.as_ref().unwrap();
    assert_eq!(log.segments.last().unwrap().next_offset(), active.base_offset());
    assert_eq!(active.next_offset(), 32);
}

#[test]
fn a_full_store_makes_the_next_append_rotate() {
    let mut log = open(conf(100, 100, 0));
    for i in 0..10 {
        let value =
            format!("Large message {} with enough bytes to exceed segment size limit", i);
        assert_eq!(append(&mut log, value.as_bytes()).unwrap(), i);
    }
    // Two records fill a store of 100 bytes: four closed segments and the
    // active one.
    assert_eq!(log.segments.len(), 4);
    assert_eq!(log.files().len(), 10);
    for i in 0..10 {
        assert_eq!(log.read(i).unwrap().offset, i);
    }
}

#[test]
fn a_full_index_makes_the_next_append_rotate() {
    let mut log = open(conf(1 << 20, 24, 0));
    for i in 0..7 {
        assert_eq!(append(&mut log, b"x").unwrap(), i);
    }
    assert_eq!(log.segments.len(), 3);
    let bases: Vec<u64> = log.segments.iter().map(|s| s.base_offset()).collect();
    assert_eq!(bases, vec![0, 2, 4]);
    assert_eq!(log.active_segment.as_ref().unwrap().base_offset(), 6);
}

#[test]
fn an_index_map_that_ends_within_an_entry_rotates_when_it_is_full() {
    // 30 bytes hold two entries; the map is not yet at its limit then.
    let mut log = open(conf(1 << 20, 30, 0));
    for i in 0..5 {
        assert_eq!(append(&mut log, b"x").unwrap(), i);
    }
    assert_eq!(log.segments.len(), 2);
    for i in 0..5 {
        assert_eq!(log.read(i).unwrap().value, b"x");
    }
}

#[test]
fn a_log_that_cannot_take_a_record_is_left_as_it_was() {
    let mut log = open(conf(1024, 5, 0));
    let mut record = Record { value: b"a".to_vec(), offset: 9 };
    assert_eq!(log.append(&mut record).unwrap_err(), LogError::SegmentFull);
    assert_eq!(record.offset, 0);
    assert!(log.segments.is_empty());
    assert_eq!(log.next_offset(), 0);
    assert_eq!(log.read(0).unwrap_err(), LogError::NotFound);
}

#[test]
fn reading_outside_the_log_finds_nothing() {
    let mut log = open(conf(40, 1024, 10));
    assert_eq!(log.read(10).unwrap_err(), LogError::NotFound);
    for i in 0..9u64 {
        append(&mut log, format!("record number {}", i).as_bytes()).unwrap();
    }
    assert!(log.segments.len() >= 2);
    assert_eq!(log.read(9).unwrap_err(), LogError::NotFound);
    assert_eq!(log.read(0).unwrap_err(), LogError::NotFound);
    assert_eq!(log.read(19).unwrap_err(), LogError::NotFound);
    assert_eq!(log.read(u64::MAX).unwrap_err(), LogError::NotFound);
    assert!(log.read(10).is_ok());
    assert!(log.read(18).is_ok());
}

#[test]
fn reopening_keeps_every_record_at_its_offset() {
    let config = conf(60, 48, 5);
    let mut log = open(config);
    for i in 0..23u64 {
        append(&mut log, format!("kept {}", i).as_bytes()).unwrap();
    }
    let closed = log.segments.len();
    assert!(closed >= 3);
    assert!(log.close().is_ok());
    let files = log.files();
    assert_eq!(files.len(), 2 * (closed + 1));
    assert_eq!(files[0].name, "5.store");
    assert_eq!(files[1].name, "5.index");

    let mut again = Log::new("data".to_string(), config, files).unwrap();
    assert_eq!(again.segments.len(), closed);
    assert_eq!(again.next_offset(), 28);
    for i in 0..23u64 {
        let record = again.read(5 + i).unwrap();
        assert_eq!(record.offset, 5 + i);
        assert_eq!(record.value, format!("kept {}", i).into_bytes());
    }
    assert_eq!(append(&mut again, b"more").unwrap(), 28);
    assert_eq!(again.read(28).unwrap().value, b"more");
}

#[test]
fn reopening_does_not_depend_on_the_order_of_the_files() {
    let config = conf(60, 48, 0);
    let mut log = open(config);
    for i in 0..23u64 {
        append(&mut log, format!("kept {}", i).as_bytes()).unwrap();
    }
    let mut files = log.files();
    files.reverse();
    files.push(file("notes.txt", b"not a segment"));
    files.insert(0, file("x.store", b"not a segment either"));
    let again = Log::new("data".to_string(), config, files).unwrap();
    assert_eq!(again.segments.len(), log.segments.len());
    for (a, b) in again.segments.iter().zip(log.segments.iter()) {
        assert_eq!(a.base_offset(), b.base_offset());
        assert_eq!(a.next_offset(), b.next_offset());
    }
    for i in 0..23u64 {
        assert_eq!(again.read(i).unwrap().value, format!("kept {}", i).into_bytes());
    }
}

#[test]
fn reopening_with_a_longer_index_extends_the_map() {
    let mut log = open(conf(1024, 48, 0));
    for i in 0..3u64 {
        append(&mut log, format!("kept {}", i).as_bytes()).unwrap();
    }
    let again = Log::new("data".to_string(), conf(1024, 120, 0), log.files()).unwrap();
    assert_eq!(again.next_offset(), 3);
    assert_eq!(again.active_segment.as_ref().unwrap().index.mmap.len(), 120);
    for i in 0..3u64 {
        assert_eq!(again.read(i).unwrap().value, format!("kept {}", i).into_bytes());
    }
}

#[test]
fn reopening_a_log_without_records_gives_a_log_without_records() {
    // The store of a segment without records holds no frame, so its index
    // has no entry, whatever opening the index alone would count.
    let log = open(conf(1024, 48, 3));
    let mut again = Log::new("data".to_string(), conf(1024, 48, 3), log.files()).unwrap();
    assert_eq!(again.next_offset(), 3);
    assert_eq!(again.read(3).unwrap_err(), LogError::NotFound);
    assert!(again.check());
    assert_eq!(append(&mut again, b"first").unwrap(), 3);
    // The same with a new segment after one that holds records.
    let mut log = open(conf(1024, 48, 0));
    append(&mut log, b"a").unwrap();
    log.new_segment().unwrap();
    let mut again = Log::new("data".to_string(), conf(1024, 48, 0), log.files()).unwrap();
    assert_eq!(again.segments.len(), 1);
    assert_eq!(again.next_offset(), 1);
    assert!(again.check());
    assert_eq!(append(&mut again, b"b").unwrap(), 1);
    assert_eq!(again.read(0).unwrap().value, b"a");
    assert_eq!(again.read(1).unwrap().value, b"b");
}

#[test]
fn store_files_are_found_and_sorted() {
    let files = vec![
        file("10.store", b""),
        file("2.store", b""),
        file("2.index", b""),
        file("x.txt", b""),
        file("33.store", b""),
        file("nine.store", b""),
        file("0.store", b""),
    ];
    assert_eq!(setup_log(&files), vec![0, 2, 10, 33]);
    assert_eq!(setup_log(&Vec::new()), Vec::<u64>::new());
}

#[test]
fn a_file_is_read_by_its_name() {
    let files = vec![file("a", b"first"), file("b", b"second"), file("a", b"third")];
    assert_eq!(read_file(&files, &"a".to_string()), b"first");
    assert_eq!(read_file(&files, &"b".to_string()), b"second");
    assert_eq!(read_file(&files, &"c".to_string()), b"");
}

#[test]
fn a_log_opens_over_store_files_without_index_files() {
    let again = Log::new(
        "data".to_string(),
        conf(1024, 48, 0),
        vec![file("4.store", b""), file("9.store", b"")],
    )
    .unwrap();
    assert_eq!(again.segments.len(), 1);
    assert_eq!(again.segments[0].base_offset(), 4);
    assert_eq!(again.active_segment.as_ref().unwrap().base_offset(), 9);
    assert_eq!(again.next_offset(), 9);
}

#[test]
fn truncate_drops_the_records_from_an_offset_on() {
    let mut log = open(conf(60, 48, 0));
    for i in 0..23u64 {
        append(&mut log, format!("kept {}", i).as_bytes()).unwrap();
    }
    log.truncate(40);
    assert_eq!(log.next_offset(), 23);
    log.truncate(11);
    assert_eq!(log.next_offset(), 11);
    assert_eq!(log.first_offset(), 0);
    for i in 0..11u64 {
        assert_eq!(log.read(i).unwrap().value, format!("kept {}", i).into_bytes());
    }
    for i in 11..23u64 {
        assert_eq!(log.read(i).unwrap_err(), LogError::NotFound);
    }
    for pair in log.segments.windows(2) {
        assert_eq!(pair[0].next_offset(), pair[1].base_offset());
    }
    assert_eq!(append(&mut log, b"again").unwrap(), 11);
    assert_eq!(log.read(11).unwrap().value, b"again");
    log.truncate(0);
    assert_eq!(log.next_offset(), 0);
    assert!(log.segments.is_empty());
    assert_eq!(log.read(0).unwrap_err(), LogError::NotFound);
    assert_eq!(append(&mut log, b"first").unwrap(), 0);
}

#[test]
fn new_segment_closes_the_active_segment() {
    let mut log = open(conf(1024, 1024, 0));
    append(&mut log, b"a").unwrap();
    assert!(log.new_segment().is_ok());
    assert_eq!(log.segments.len(), 1);
    assert_eq!(log.active_segment.as_ref().unwrap().base_offset(), 1);
    assert_eq!(append(&mut log, b"b").unwrap(), 1);
    assert_eq!(log.read(0).unwrap().value, b"a");
    assert_eq!(log.read(1).unwrap().value, b"b");
}

#[test]
fn remove_leaves_a_log_without_records() {
    let mut log = open(conf(60, 48, 0));
    for i in 0..10u64 {
        append(&mut log, format!("kept {}", i).as_bytes()).unwrap();
    }
    assert!(log.remove().is_ok());
    assert!(log.segments.is_empty());
    assert!(log.active_segment.is_none());
    for i in 0..10u64 {
        assert_eq!(log.read(i).unwrap_err(), LogError::NotFound);
    }
    assert_eq!(append(&mut log, b"fresh").unwrap(), 0);
}

#[test]
fn check_tells_a_consistent_log_from_a_damaged_one() {
    let config = conf(60, 48, 5);
    let mut log = open(config);
    assert!(log.check());
    for i in 0..23u64 {
        append(&mut log, format!("kept {}", i).as_bytes()).unwrap();
        assert!(log.check());
    }
    let files = log.files();
    assert!(Log::new("data".to_string(), config, files).unwrap().check());
    log.truncate(17);
    assert!(log.check());

    // A byte of a payload is changed: the record still decodes.
    let mut changed = log.files();
    changed[0].data[10] ^= 0xff;
    let changed = Log::new("data".to_string(), config, changed).unwrap();
    assert!(changed.check());
    assert_ne!(changed.read(5).unwrap().value, log.read(5).unwrap().value);
    // The offset of a record is changed.
    let mut damaged = log.files();
    let last = damaged[0].data.len() - 1;
    damaged[0].data[last] ^= 0x01;
    assert!(!Log::new("data".to_string(), config, damaged).unwrap().check());
    // A length is changed: the frame no longer ends where the next starts.
    let mut damaged = log.files();
    damaged[0].data[7] += 1;
    assert!(!Log::new("data".to_string(), config, damaged).unwrap().check());
    // An index entry leads elsewhere.
    let mut damaged = log.files();
    damaged[1].data[23] += 1;
    assert!(!Log::new("data".to_string(), config, damaged).unwrap().check());
    // A relative offset is changed.
    let mut damaged = log.files();
    damaged[1].data[3] = 9;
    assert!(!Log::new("data".to_string(), config, damaged).unwrap().check());
    // The unwritten part of an index is not blank.
    let mut damaged = log.files();
    let end = damaged[1].data.len() - 1;
    if damaged[1].data[end] == 0 && log.segments[0].index.size < damaged[1].data.len() as u64 {
        damaged[1].data[end] = 1;
        assert!(!Log::new("data".to_string(), config, damaged).unwrap().check());
    }
    // A segment is missing.
    let mut damaged = log.files();
    damaged.drain(2..4);
    assert!(!Log::new("data".to_string(), config, damaged).unwrap().check());
    // A store is cut short.
    let mut damaged = log.files();
    damaged[0].data.pop();
    assert!(!Log::new("data".to_string(), config, damaged).unwrap().check());
    // A log without records, opened again, is a log without records.
    let empty = open(config);
    assert!(Log::new("data".to_string(), config, empty.files()).unwrap().check());
}
