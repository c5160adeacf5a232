use betmasters::tiles::{Coordinator, CoordinatorCommand, Task};

fn task(x: u32, y: u32, width: u32, height: u32) -> Task {
    Task { x, y, width, height, max_iterations: 50 }
}

#[test]
fn tiles_are_handed_out_last_first_then_finish() {
    let mut c = Coordinator::new(130, 70, 50);
    let expected = vec![
        task(128, 64, 2, 6),
        task(64, 64, 64, 6),
        task(0, 64, 64, 6),
        task(128, 0, 2, 64),
        task(64, 0, 64, 64),
        task(0, 0, 64, 64),
    ];
    for t in expected {
        assert_eq!(c.next_command(), CoordinatorCommand::AssignTask(t));
    }
    assert_eq!(c.next_command(), CoordinatorCommand::Finish);
    assert_eq!(c.next_command(), CoordinatorCommand::Finish);
}

#[test]
fn empty_picture_has_no_tiles() {
    let mut c = Coordinator::new(0, 10, 5);
    assert_eq!(c.next_command(), CoordinatorCommand::Finish);
    assert!(c.get_final_buffer().is_empty());
}

#[test]
fn tile_pixels_are_copied_into_place() {
    let mut c = Coordinator::new(3, 2, 50);
    assert_eq!(c.get_final_buffer(), vec![0u8; 24]);
    let data: Vec<u8> = (1..=8).collect();
    c.process_result(task(1, 0, 1, 2), data);
    let mut expected = vec![0u8; 24];
    expected[4..8].copy_from_slice(&[1, 2, 3, 4]);
    expected[16..20].copy_from_slice(&[5, 6, 7, 8]);
    assert_eq!(c.get_final_buffer(), expected);
}

#[test]
fn rows_outside_the_buffers_are_skipped() {
    let mut c = Coordinator::new(2, 2, 50);
    // the second row lies below the picture, and the data covers one row only
    c.process_result(task(0, 1, 2, 2), vec![9; 8]);
    let mut expected = vec![0u8; 16];
    expected[8..16].copy_from_slice(&[9; 8]);
    assert_eq!(c.get_final_buffer(), expected);
    c.process_result(task(0, 0, 2, 1), vec![1; 3]);
    assert_eq!(c.get_final_buffer(), expected);
}
