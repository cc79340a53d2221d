//! Blocks between one peer and the swarm.

use bytes::Bytes;
use dendrite::error::ActorError;
use dendrite::pipeline::{BlockRequest, DownloadPipeline};
use dendrite::rates::{BLOCK_BYTES, BLOCK_PIPELINE};
use dendrite::worker::{PieceResult, WorkerAction, WorkerInput, WorkerReport};

fn request(piece: u32, begin: u32, length: u32) -> BlockRequest {
    BlockRequest { piece, begin, length }
}

fn with_pieces(pieces: &[(usize, usize)]) -> DownloadPipeline {
    let mut pipeline = DownloadPipeline::new(0);
    for (piece, length) in pieces {
        let actions = pipeline.handle(
            WorkerInput::Download { piece: *piece, length: *length },
            0,
        );
        assert!(actions.is_empty());
    }
    pipeline
}

#[test]
fn requests_cross_piece_boundaries() {
    let mut pipeline = with_pieces(&[(4, BLOCK_BYTES + 100), (9, 50)]);
    assert_eq!(pipeline.unrequested_bytes(), BLOCK_BYTES + 150);
    let (requests, fault) = pipeline.fill_requests();
    assert!(fault.is_none());
    assert_eq!(
        requests,
        [request(4, 0, 16384), request(4, 16384, 100), request(9, 0, 50)]
    );
    assert_eq!(pipeline.unrequested_bytes(), 0);
    assert!(pipeline.next_request().unwrap().is_none());
}

#[test]
fn blocks_in_any_order_make_up_the_piece() {
    let mut pipeline = with_pieces(&[(4, BLOCK_BYTES + 2)]);
    pipeline.fill_requests();
    let tail = pipeline.receive_block(4, 16384, &Bytes::from(vec![7, 8]), 1).unwrap();
    assert_eq!(tail, None);
    let done = pipeline
        .receive_block(4, 0, &Bytes::from(vec![1; BLOCK_BYTES]), 2)
        .unwrap();
    let (piece, data) = done.expect("the piece is complete");
    assert_eq!(piece, 4);
    assert_eq!(data.len(), BLOCK_BYTES + 2);
    assert_eq!(&data[BLOCK_BYTES..], [7, 8]);
    assert!(pipeline.queue.is_empty());
}

#[test]
fn blocks_that_were_not_asked_for_are_refused() {
    let mut pipeline = with_pieces(&[(4, 10)]);
    pipeline.fill_requests();
    let error = pipeline.receive_block(5, 0, &Bytes::from(vec![0; 10]), 1).unwrap_err();
    assert_eq!(error.message(), "peer session failed: peer returned an unsolicited block");
    let error = pipeline.receive_block(4, 0, &Bytes::from(vec![0; 9]), 1).unwrap_err();
    assert_eq!(
        error.message(),
        "peer session failed: peer returned a block with the wrong length"
    );
    let error = pipeline.receive_block(4, 0, &Bytes::from(vec![0; 10]), 1).unwrap_err();
    assert_eq!(
        error.message(),
        "peer session failed: peer returned an unsolicited block",
        "a block is answered once"
    );
}

#[test]
fn a_choke_gives_every_piece_back() {
    let mut pipeline = with_pieces(&[(1, 10), (2, 10)]);
    pipeline.fill_requests();
    let actions = pipeline.handle(WorkerInput::Choke, 0);
    assert_eq!(actions.len(), 3);
    for (action, expected) in actions.iter().zip([1, 2]) {
        assert!(matches!(
            action,
            WorkerAction::Report(WorkerReport::Complete { piece, result: PieceResult::Cancelled })
                if *piece == expected
        ));
    }
    assert!(matches!(
        actions[2],
        WorkerAction::Report(WorkerReport::ChokeState { choked: true })
    ));
    assert!(pipeline.queue.is_empty());
    assert!(pipeline.pending.is_empty());
}

#[test]
fn a_cancelled_piece_takes_its_requests_back() {
    let mut pipeline = with_pieces(&[(1, 10), (2, 20)]);
    pipeline.fill_requests();
    let actions = pipeline.handle(WorkerInput::Cancel { piece: 1 }, 0);
    assert!(matches!(
        actions[0],
        WorkerAction::SendCancel(BlockRequest { piece: 1, begin: 0, length: 10 })
    ));
    assert!(matches!(
        actions[1],
        WorkerAction::Report(WorkerReport::Complete { piece: 1, result: PieceResult::Cancelled })
    ));
    assert_eq!(pipeline.pending, [request(2, 0, 20)]);
    assert_eq!(pipeline.cancel_piece(1), None);
    assert_eq!(pipeline.cancel_piece(2), Some(vec![request(2, 0, 20)]));
}

#[test]
fn an_ended_worker_says_why() {
    let mut idle = DownloadPipeline::new(0);
    let actions = idle.handle(WorkerInput::Disconnected, 0);
    assert!(matches!(
        &actions[0],
        WorkerAction::Report(WorkerReport::Gone { error }) if error == "peer session failed: peer disconnected"
    ));
    assert!(matches!(actions[1], WorkerAction::Stop));

    let mut busy = with_pieces(&[(3, 10)]);
    let actions = busy.handle(WorkerInput::Failed("reset".to_owned()), 0);
    assert!(matches!(
        &actions[0],
        WorkerAction::Report(WorkerReport::Complete { piece: 3, result: PieceResult::Failed(text) })
            if text == "peer session failed: peer session failed during piece transfer: reset"
    ));

    let mut broken = DownloadPipeline::new(0);
    let actions = broken.fail(ActorError::Cancelled);
    assert!(matches!(
        &actions[0],
        WorkerAction::Report(WorkerReport::Gone { error }) if error == "torrent actor was cancelled"
    ));
}

#[test]
fn a_dry_pipeline_asks_for_more_once() {
    let mut pipeline = with_pieces(&[(1, 10)]);
    let (requests, actions) = pipeline.prepare(Some(4));
    assert_eq!(requests, [request(1, 0, 10)]);
    assert!(matches!(
        actions[0],
        WorkerAction::Report(WorkerReport::NeedPieces { rate_bytes_per_second: 0 })
    ));
    assert_eq!(pipeline.limit_blocks, 4, "the peer's own limit holds");
    let (requests, actions) = pipeline.prepare(Some(4));
    assert!(requests.is_empty());
    assert!(actions.is_empty());
}

#[test]
fn a_new_pipeline_is_empty() {
    let pipeline = DownloadPipeline::new(5);
    assert_eq!(pipeline.limit_blocks, BLOCK_PIPELINE);
    assert_eq!(pipeline.unrequested_bytes(), 0);
    assert!(pipeline.message_timeout(30_000_000_000) >= 30_000_000_000);
}

#[test]
fn blocks_are_cancelled_in_their_order() {
    let mut pipeline = with_pieces(&[(1, 2 * BLOCK_BYTES + 5), (2, 20)]);
    pipeline.fill_requests();
    pipeline.pending.reverse();
    assert_eq!(pipeline.pending[1].begin, 32768);
    assert_eq!(
        pipeline.cancel_piece(1),
        Some(vec![request(1, 0, 16384), request(1, 16384, 16384), request(1, 32768, 5)])
    );
    assert_eq!(pipeline.pending, [request(2, 0, 20)]);
}
