use betmasters::hello::{commands_for_new_worker, CoordinatorCommand as HelloCommand};
use betmasters::worker::{build_ws_url, fill_block};

#[test]
fn http_url_becomes_ws() {
    assert_eq!(build_ws_url("http://10.10.10.1:8080"), "ws://10.10.10.1:8080/ws");
}

#[test]
fn https_url_becomes_wss() {
    assert_eq!(build_ws_url("https://example.org"), "wss://example.org/ws");
}

#[test]
fn other_url_only_gets_the_path() {
    assert_eq!(build_ws_url("ws://127.0.0.1:8080"), "ws://127.0.0.1:8080/ws");
    assert_eq!(build_ws_url(""), "/ws");
}

#[test]
fn every_occurrence_is_rewritten() {
    assert_eq!(build_ws_url("http://a/http://b"), "ws://a/ws://b/ws");
}

#[test]
fn block_is_laid_out_row_by_row() {
    let data = fill_block(3, 2, 4, |row, col| row * 10 + col);
    assert_eq!(data, vec![20, 21, 22, 30, 31, 32]);
}

#[test]
fn empty_block_has_no_pixels() {
    let data = fill_block(5, 7, 7, |row, col| row + col);
    assert!(data.is_empty());
}

#[test]
fn new_worker_is_welcomed_then_given_a_test_block() {
    let cmds = commands_for_new_worker();
    assert_eq!(cmds.len(), 2);
    match &cmds[0] {
        HelloCommand::Welcome(text) => assert_eq!(text, "Hello distributed"),
        other => panic!("unexpected {:?}", other),
    }
    match &cmds[1] {
        HelloCommand::Compute { width, height } => {
            assert_eq!((*width, *height), (100, 100));
        }
        other => panic!("unexpected {:?}", other),
    }
}

#[test]
fn adjacent_blocks_concatenate_to_the_whole() {
    let eval = |row: u32, col: u32| row * 7 + col * 3;
    let mut top = fill_block(4, 1, 3, eval);
    let bottom = fill_block(4, 3, 6, eval);
    top.extend(bottom);
    assert_eq!(top, fill_block(4, 1, 6, eval));
    assert_eq!(fill_block(4, 1, 6, eval), fill_block(4, 1, 6, eval));
}
