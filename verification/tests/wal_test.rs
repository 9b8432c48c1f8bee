use walrus::log::config;
use walrus::log::log::Log;
use walrus::log::segment::Record;

const TEST_BASE_DIR: &str = "/tmp/walrus_tests";

fn setup_test_env(test_name: &str) -> String {
    format!("{}/{}", TEST_BASE_DIR, test_name)
}

fn create_test_config(max_store_bytes: u64, max_index_bytes: u64) -> config::Config {
    config::Config {
        segment: config::InitSegment {
            max_store_bytes,
            max_index_bytes,
            initial_offset: 0,
        },
    }
}

#[test]
fn test_wal_basic_operations() {
    let test_dir = setup_test_env("basic_operations");
    let config = create_test_config(1024, 1024);

    let log_result = Log::new(test_dir.clone(), config, Vec::new());
    assert!(log_result.is_ok(), "Log creation should succeed");

    let mut log = log_result.unwrap();

    let mut record = Record::default();
    record.value = b"Hello, WAL!".to_vec();
    record.offset = 0;

    let append_result = log.append(&mut record);
    assert!(append_result.is_ok(), "Append should succeed");
    let offset = append_result.unwrap();
    assert_eq!(offset, 0, "First record should have offset 0");

    let read_result = log.read(0);
    assert!(read_result.is_ok(), "Read should succeed");
    let read_record = read_result.unwrap();
    assert_eq!(read_record.value, b"Hello, WAL!", "Read value should match");
    assert_eq!(read_record.offset, 0, "Read offset should match");
}

#[test]
fn test_wal_multiple_records() {
    let test_dir = setup_test_env("multiple_records");
    let config = create_test_config(1024, 1024);

    let log_result = Log::new(test_dir.clone(), config, Vec::new());
    assert!(log_result.is_ok(), "Log creation should succeed");

    let mut log = log_result.unwrap();

    let test_messages = vec![
        "First message",
        "Second message",
        "Third message",
        "Fourth message",
        "Fifth message",
    ];

    for (i, message) in test_messages.iter().enumerate() {
        let mut record = Record::default();
        record.value = message.as_bytes().to_vec();
        record.offset = i as u64;

        let append_result = log.append(&mut record);
        assert!(append_result.is_ok(), "Append {} should succeed", i);
        let offset = append_result.unwrap();
        assert_eq!(offset, i as u64, "Record {} should have offset {}", i, i);
    }

    for (i, expected_message) in test_messages.iter().enumerate() {
        let read_result = log.read(i as u64);
        assert!(read_result.is_ok(), "Read {} should succeed", i);
        let read_record = read_result.unwrap();
        assert_eq!(read_record.value, expected_message.as_bytes(), "Read value {} should match", i);
        assert_eq!(read_record.offset, i as u64, "Read offset {} should match", i);
    }
}

#[test]
fn test_wal_segment_rotation() {
    let test_dir = setup_test_env("segment_rotation");
    let config = create_test_config(100, 100);

    let log_result = Log::new(test_dir.clone(), config, Vec::new());
    assert!(log_result.is_ok(), "Log creation should succeed");

    let mut log = log_result.unwrap();

    for i in 0..10 {
        let mut record = Record::default();
        record.value =
            format!("Large message {} with enough bytes to exceed segment size limit", i).into_bytes();
        record.offset = i;

        let append_result = log.append(&mut record);
        assert!(append_result.is_ok(), "Append {} should succeed", i);
    }

    assert!(log.segments.len() >= 1, "At least two segments should exist");

    for i in 0..10 {
        let read_result = log.read(i);
        assert!(read_result.is_ok(), "Read {} should succeed", i);
        let read_record = read_result.unwrap();
        assert_eq!(read_record.offset, i, "Read offset {} should match", i);
        assert!(read_record.value.len() > 0, "Read value {} should not be empty", i);
    }
}

#[test]
fn test_wal_recovery() {
    let test_dir = setup_test_env("recovery");
    let config = create_test_config(1024, 1024);

    let files = {
        let log_result = Log::new(test_dir.clone(), config.clone(), Vec::new());
        assert!(log_result.is_ok(), "Log creation should succeed");

        let mut log = log_result.unwrap();

        for i in 0..5 {
            let mut record = Record::default();
            record.value = format!("Session 1 message {}", i).into_bytes();
            record.offset = i;

            let append_result = log.append(&mut record);
            assert!(append_result.is_ok(), "Append {} should succeed", i);
        }

        assert!(log.close().is_ok());
        log.files()
    };

    {
        let log_result = Log::new(test_dir.clone(), config, files);
        assert!(log_result.is_ok(), "Log recovery should succeed");

        let mut log = log_result.unwrap();

        for i in 0..5 {
            let read_result = log.read(i);
            assert!(read_result.is_ok(), "Read {} should succeed", i);
            let read_record = read_result.unwrap();
            assert_eq!(read_record.value, format!("Session 1 message {}", i).into_bytes());
        }

        for i in 5..10 {
            let mut record = Record::default();
            record.value = format!("Session 2 message {}", i).into_bytes();
            record.offset = i;

            let append_result = log.append(&mut record);
            assert!(append_result.is_ok(), "Append {} should succeed", i);
        }

        for i in 0..10 {
            let read_result = log.read(i);
            assert!(read_result.is_ok(), "Read {} should succeed", i);
            let read_record = read_result.unwrap();
            if i < 5 {
                assert_eq!(read_record.value, format!("Session 1 message {}", i).into_bytes());
            } else {
                assert_eq!(read_record.value, format!("Session 2 message {}", i).into_bytes());
            }
        }
    }
}

#[test]
fn test_wal_error_handling() {
    let test_dir = setup_test_env("error_handling");
    let config = create_test_config(1024, 1024);

    let log_result = Log::new(test_dir.clone(), config, Vec::new());
    assert!(log_result.is_ok(), "Log creation should succeed");

    let log = log_result.unwrap();

    let read_result = log.read(999);
    assert!(read_result.is_err(), "Reading non-existent offset should fail");

    let read_result = log.read(0);
    assert!(read_result.is_err(), "Reading from empty log should fail");
}

#[test]
fn test_wal_large_data() {
    let test_dir = setup_test_env("large_data");
    let config = create_test_config(1024 * 1024, 1024 * 1024);

    let log_result = Log::new(test_dir.clone(), config, Vec::new());
    assert!(log_result.is_ok(), "Log creation should succeed");

    let mut log = log_result.unwrap();

    let large_message = "x".repeat(1000);

    for i in 0..10 {
        let mut record = Record::default();
        record.value = format!("{} - {}", large_message, i).into_bytes();
        record.offset = i;

        let append_result = log.append(&mut record);
        assert!(append_result.is_ok(), "Append {} should succeed", i);
    }

    for i in 0..10 {
        let read_result = log.read(i);
        assert!(read_result.is_ok(), "Read {} should succeed", i);
        let read_record = read_result.unwrap();
        assert_eq!(read_record.value, format!("{} - {}", large_message, i).into_bytes());
    }
}

#[test]
fn test_wal_cleanup() {
    let test_dir = setup_test_env("cleanup");
    let config = create_test_config(1024, 1024);

    let log_result = Log::new(test_dir.clone(), config, Vec::new());
    assert!(log_result.is_ok(), "Log creation should succeed");

    let mut log = log_result.unwrap();

    for i in 0..5 {
        let mut record = Record::default();
        record.value = format!("Cleanup test message {}", i).into_bytes();
        record.offset = i;

        let append_result = log.append(&mut record);
        assert!(append_result.is_ok(), "Append {} should succeed", i);
    }

    let close_result = log.close();
    assert!(close_result.is_ok(), "Close should succeed");

    let remove_result = log.remove();
    assert!(remove_result.is_ok(), "Remove should succeed");

    assert!(log.files().is_empty(), "Test directory should be removed");
    assert!(log.read(0).is_err());
}

#[test]
fn test_wal_performance() {
    let test_dir = setup_test_env("performance");
    let config = create_test_config(1024 * 1024, 1024 * 1024);

    let log_result = Log::new(test_dir.clone(), config, Vec::new());
    assert!(log_result.is_ok(), "Log creation should succeed");

    let mut log = log_result.unwrap();

    for i in 0..1000 {
        let mut record = Record::default();
        record.value = format!("Performance test message {}", i).into_bytes();
        record.offset = i;

        let append_result = log.append(&mut record);
        assert!(append_result.is_ok(), "Append {} should succeed", i);
    }

    for i in 0..1000 {
        let read_result = log.read(i);
        assert!(read_result.is_ok(), "Read {} should succeed", i);
    }
}
