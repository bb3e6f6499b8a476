use std::io::Read;

use fleet_scheduler::task::{Task, DEFAULT_MAX_RETRIES};

#[test]
fn a_new_task_has_its_defaults() {
    let task = Task::new("task_1", 10, 2000, 20, 10, vec![1, 2, 3, 4]);
    assert_eq!(task.task_id, "task_1");
    assert_eq!(task.priority, 10);
    assert_eq!(task.deadline, 0);
    assert_eq!(task.required_ram, 2000);
    assert_eq!(task.required_cpu, 20);
    assert_eq!(task.required_bandwidth, 10);
    assert_eq!(task.data, vec![1, 2, 3, 4]);
    assert_eq!(task.assigned_node_id, None);
    assert_eq!(task.retries, 0);
    assert_eq!(task.max_retries, 3);
    assert_eq!(DEFAULT_MAX_RETRIES, 3);
}

#[test]
fn cpu_bound_means_more_cpu_than_a_tenth_of_ram() {
    assert!(!Task::new("t", 1, 100, 10, 0, vec![]).is_cpu_bound());
    assert!(Task::new("t", 1, 100, 11, 0, vec![]).is_cpu_bound());
    assert!(!Task::new("t", 1, 109, 10, 0, vec![]).is_cpu_bound());
    assert!(Task::new("t", 1, 9, 1, 0, vec![]).is_cpu_bound());
    assert!(!Task::new("t", 1, 0, 0, 0, vec![]).is_cpu_bound());
    assert!(!Task::new("t", 1, 50, 5, 0, vec![]).is_cpu_bound());
    assert!(Task::new("t", 1, 0, 50, 0, vec![]).is_cpu_bound());
}

#[test]
fn the_retry_limit_is_reached_at_the_bound() {
    let mut task = Task::new("t", 1, 1, 1, 1, vec![]);
    assert!(!task.exceeded_retry_limit());
    task.retries = 2;
    assert!(!task.exceeded_retry_limit());
    task.retries = 3;
    assert!(task.exceeded_retry_limit());
    task.max_retries = 0;
    task.retries = 0;
    assert!(task.exceeded_retry_limit());
}

#[test]
fn compressed_data_is_a_gzip_stream() {
    let data = b"hello hello hello hello hello hello".to_vec();
    let packed = Task::compress_task_data(&data);
    assert_ne!(packed, data);
    assert_eq!(&packed[..10], &[0x1f, 0x8b, 8, 0, 0, 0, 0, 0, 0, 255]);
    let mut unpacked = Vec::new();
    flate2::read::GzDecoder::new(&packed[..])
        .read_to_end(&mut unpacked)
        .unwrap();
    assert_eq!(unpacked, data);
}

#[test]
fn compressing_nothing_still_gives_a_stream() {
    let packed = Task::compress_task_data(&[]);
    assert!(packed.len() >= 18);
    assert_eq!(&packed[..3], &[0x1f, 0x8b, 8]);
    let mut unpacked = Vec::new();
    flate2::read::GzDecoder::new(&packed[..])
        .read_to_end(&mut unpacked)
        .unwrap();
    assert!(unpacked.is_empty());
}

#[test]
fn compression_is_repeatable() {
    let data: Vec<u8> = (0..=255u8).cycle().take(4096).collect();
    assert_eq!(Task::compress_task_data(&data), Task::compress_task_data(&data));
    assert!(Task::compress_task_data(&data).len() < data.len());
}
