use chunkstore::codec::{encode, split};
use chunkstore::progress::{progress_percent, ProgressBus};
use chunkstore::records::{Files, SuccessResponse};
use chunkstore::store::{
    store_round_trip, Attachment, ChannelHandle, Download, MessageMeta, Pagination,
    TransferStatus, Upload,
};
use chunkstore::StoreError;

fn sample_bytes(n: usize) -> Vec<u8> {
    let mut v = Vec::with_capacity(n);
    for i in 0..n {
        v.push((i % 251) as u8);
    }
    v
}

fn plain_message(id: u64) -> MessageMeta {
    MessageMeta { id, attachment: None }
}

#[test]
fn percent_is_cumulative_ratio() {
    assert_eq!(progress_percent(0, 5), 0);
    assert_eq!(progress_percent(1, 3), 33);
    assert_eq!(progress_percent(2, 3), 66);
    assert_eq!(progress_percent(3, 3), 100);
    assert_eq!(progress_percent(18_874_368, 52_428_800), 36);
}

#[test]
fn bus_drops_samples_without_subscriber() {
    let mut bus = ProgressBus::new();
    bus.publish(10);
    assert_eq!(bus.drain(), Vec::<u32>::new());
}

#[test]
fn bus_delivers_in_publish_order() {
    let mut bus = ProgressBus::new();
    bus.subscribe();
    bus.publish(30);
    bus.publish(60);
    bus.publish(100);
    assert_eq!(bus.drain(), vec![30, 60, 100]);
    assert_eq!(bus.drain(), Vec::<u32>::new());
}

#[test]
fn bus_resubscribe_replaces_previous() {
    let mut bus = ProgressBus::new();
    bus.subscribe();
    bus.publish(55);
    bus.subscribe();
    assert_eq!(bus.drain(), Vec::<u32>::new());
}

#[test]
fn handle_text_round_trip() {
    let handle = ChannelHandle::parse(&b"420013".to_vec()).expect("digits parse");
    assert_eq!(handle.id, 420013);
    assert_eq!(handle.to_text(), b"420013".to_vec());
    assert_eq!(ChannelHandle::parse(&b"".to_vec()), None);
    assert_eq!(ChannelHandle::parse(&b"12x".to_vec()), None);
}

#[test]
fn upload_publishes_monotonic_samples_ending_at_100() {
    let bytes = sample_bytes(10);
    let mut up = Upload::start(ChannelHandle { id: 9 }, &bytes, &b"file".to_vec(), 3);
    assert_eq!(up.items.len(), 4);
    assert_eq!(up.items[0].name, b"file_0.txt".to_vec());
    assert_eq!(up.items[3].name, b"file_3.txt".to_vec());
    let mut samples: Vec<u32> = Vec::new();
    while up.status == TransferStatus::Sending {
        assert!(up.next_item().is_some());
        samples.push(up.on_post_ok());
    }
    assert_eq!(samples, vec![30, 60, 90, 100]);
    assert_eq!(up.published, samples);
    assert_eq!(up.status, TransferStatus::Completed);
    assert!(up.next_item().is_none());
}

#[test]
fn upload_failure_publishes_sentinel_and_stops() {
    let bytes = sample_bytes(10);
    let mut up = Upload::start(ChannelHandle { id: 9 }, &bytes, &b"file".to_vec(), 3);
    let s1 = up.on_post_ok();
    let s2 = up.on_post_ok();
    assert_eq!(up.on_post_err(), StoreError::TransportPostError);
    assert_eq!((s1, s2), (30, 60));
    assert_eq!(up.published, vec![30, 60, 0]);
    assert_eq!(up.status, TransferStatus::Aborted);
    assert!(up.next_item().is_none());
}

#[test]
fn upload_of_empty_object_completes_with_no_messages() {
    let up = Upload::start(ChannelHandle { id: 1 }, &Vec::new(), &b"empty".to_vec(), 3);
    assert_eq!(up.items.len(), 0);
    assert_eq!(up.status, TransferStatus::Completed);
    assert_eq!(up.published, Vec::<u32>::new());
}

#[test]
fn pagination_reverses_reverse_chronological_pages() {
    // Posting order is ids 1..=240; the transport lists newest first in
    // pages of at most 100: 100, 100, then 40.
    let newest_first: Vec<u64> = (1..=240).rev().collect();
    let mut pg = Pagination::new(100);
    let page1: Vec<MessageMeta> = newest_first[0..100].iter().map(|&id| plain_message(id)).collect();
    let page2: Vec<MessageMeta> = newest_first[100..200].iter().map(|&id| plain_message(id)).collect();
    let page3: Vec<MessageMeta> = newest_first[200..240].iter().map(|&id| plain_message(id)).collect();
    pg.feed_page(page1);
    assert!(!pg.done);
    assert_eq!(pg.cursor, Some(141));
    pg.feed_page(page2);
    assert!(!pg.done);
    assert_eq!(pg.cursor, Some(41));
    pg.feed_page(page3);
    assert!(pg.done);
    let history = pg.into_history();
    assert_eq!(history.len(), 240);
    for (i, msg) in history.iter().enumerate() {
        assert_eq!(msg.id, i as u64 + 1);
    }
}

#[test]
fn pagination_stops_on_empty_page() {
    let mut pg = Pagination::new(100);
    pg.feed_page(Vec::new());
    assert!(pg.done);
    assert_eq!(pg.into_history().len(), 0);
}

fn encoded_history(bytes: &[u8], bound: usize, stem: &[u8]) -> (Vec<MessageMeta>, Vec<Vec<u8>>) {
    let up = Upload::start(ChannelHandle { id: 7 }, &bytes.to_vec(), &stem.to_vec(), bound);
    let mut history: Vec<MessageMeta> = Vec::new();
    let mut bodies: Vec<Vec<u8>> = Vec::new();
    for (i, item) in up.items.iter().enumerate() {
        history.push(MessageMeta {
            id: 1000 + i as u64,
            attachment: Some(Attachment { name: item.name.clone(), url: b"u".to_vec() }),
        });
        bodies.push(item.body.clone());
    }
    (history, bodies)
}

#[test]
fn download_reassembles_in_order() {
    let bytes = sample_bytes(100);
    let (history, bodies) = encoded_history(&bytes, 40, b"obj");
    let mut dl = Download::start(history);
    let mut samples: Vec<u32> = Vec::new();
    for body in bodies {
        samples.push(dl.advance(Some(body)).expect("well-formed chunk"));
    }
    assert_eq!(dl.status, TransferStatus::Completed);
    assert_eq!(samples, vec![33, 66, 100]);
    assert_eq!(dl.published, samples);
    assert_eq!(dl.output, bytes);
}

#[test]
fn download_counts_messages_without_attachment() {
    let bytes = sample_bytes(10);
    let (mut history, bodies) = encoded_history(&bytes, 10, b"obj");
    history.push(plain_message(2000));
    let mut dl = Download::start(history);
    assert_eq!(dl.advance(Some(bodies[0].clone())), Ok(50));
    assert_eq!(dl.advance(None), Ok(100));
    assert_eq!(dl.status, TransferStatus::Completed);
    assert_eq!(dl.output, bytes);
}

#[test]
fn download_rejects_gap_in_indices() {
    let bytes = sample_bytes(30);
    let (mut history, bodies) = encoded_history(&bytes, 10, b"obj");
    // Rename the third chunk as index 3: the run 0, 1, 3 has a gap.
    history[2].attachment = Some(Attachment { name: b"obj_3.txt".to_vec(), url: b"u".to_vec() });
    let mut dl = Download::start(history);
    dl.advance(Some(bodies[0].clone())).expect("index 0");
    dl.advance(Some(bodies[1].clone())).expect("index 1");
    assert_eq!(dl.advance(Some(bodies[2].clone())), Err(StoreError::OrderError));
    assert_eq!(dl.status, TransferStatus::Aborted);
    assert_eq!(dl.published, vec![33, 66, 0]);
}

#[test]
fn download_rejects_duplicate_index() {
    let bytes = sample_bytes(30);
    let (mut history, bodies) = encoded_history(&bytes, 10, b"obj");
    // Rename the third chunk as index 1: the run 0, 1, 1 repeats.
    history[2].attachment = Some(Attachment { name: b"obj_1.txt".to_vec(), url: b"u".to_vec() });
    let mut dl = Download::start(history);
    dl.advance(Some(bodies[0].clone())).expect("index 0");
    dl.advance(Some(bodies[1].clone())).expect("index 1");
    assert_eq!(dl.advance(Some(bodies[2].clone())), Err(StoreError::OrderError));
    assert_eq!(dl.status, TransferStatus::Aborted);
}

#[test]
fn download_detects_missing_oldest_chunks() {
    let bytes = sample_bytes(30);
    let (mut history, bodies) = encoded_history(&bytes, 10, b"obj");
    // Drop the oldest message, as a pagination short-read would: the
    // first index seen is then 1, not 0.
    history.remove(0);
    let mut dl = Download::start(history);
    assert_eq!(
        dl.advance(Some(bodies[1].clone())),
        Err(StoreError::CursorExhaustedEarly),
    );
    assert_eq!(dl.status, TransferStatus::Aborted);
    assert_eq!(dl.published, vec![0]);
}

#[test]
fn download_rejects_corrupted_body() {
    let bytes = sample_bytes(30);
    let (history, _) = encoded_history(&bytes, 10, b"obj");
    let mut dl = Download::start(history);
    assert_eq!(
        dl.advance(Some(b"@@not base64@@".to_vec())),
        Err(StoreError::CodecError),
    );
    assert_eq!(dl.status, TransferStatus::Aborted);
}

#[test]
fn download_fetch_failure_publishes_sentinel() {
    let bytes = sample_bytes(30);
    let (history, bodies) = encoded_history(&bytes, 10, b"obj");
    let mut dl = Download::start(history);
    dl.advance(Some(bodies[0].clone())).expect("index 0");
    assert_eq!(dl.on_fetch_err(), StoreError::TransportFetchError);
    assert_eq!(dl.published, vec![33, 0]);
    assert_eq!(dl.status, TransferStatus::Aborted);
}

#[test]
fn protocol_round_trip_reproduces_object() {
    let bytes = sample_bytes(10_000);
    let back = store_round_trip(&bytes, &b"archive.tar".to_vec(), 333);
    assert_eq!(back, bytes);
    let empty: Vec<u8> = Vec::new();
    assert_eq!(store_round_trip(&empty, &b"nothing".to_vec(), 5), empty);
}

#[test]
fn records_carry_name_and_handle_text() {
    let handle = ChannelHandle { id: 42 };
    let thread_id = String::from_utf8(handle.to_text()).expect("ascii digits");
    let row = Files { file_name: String::from("movie.mp4"), thread_id: thread_id.clone() };
    let response = SuccessResponse { file_name: row.file_name.clone(), thread_id };
    assert_eq!(response.thread_id, "42");
    assert_eq!(row.file_name, "movie.mp4");
}

#[test]
fn fifty_megabyte_scenario() {
    const MB: usize = 1024 * 1024;
    let total: usize = 50 * MB;
    let bound: usize = 18 * MB;
    let mut bytes = vec![7u8; total];
    bytes[0] = 1;
    bytes[bound] = 2;
    bytes[2 * bound] = 3;
    bytes[total - 1] = 4;

    let chunks = split(&bytes, bound);
    assert_eq!(chunks.len(), 3);
    assert_eq!(chunks[0].payload.len(), 18 * MB);
    assert_eq!(chunks[1].payload.len(), 18 * MB);
    assert_eq!(chunks[2].payload.len(), 14 * MB);
    assert_eq!((chunks[0].index, chunks[1].index, chunks[2].index), (0, 1, 2));
    let first = encode(&chunks[0]);
    assert!(first.body.len() <= 25_165_824);

    let mut up = Upload::start(ChannelHandle { id: 50 }, &bytes, &b"big.bin".to_vec(), bound);
    let mut samples: Vec<u32> = Vec::new();
    while up.status == TransferStatus::Sending {
        samples.push(up.on_post_ok());
    }
    assert_eq!(samples, vec![36, 72, 100]);
    assert_eq!(*samples.last().expect("three samples"), 100);

    // The transport lists the three messages newest first; they fit one
    // page, so exactly one listing call drains the history.
    let mut page: Vec<MessageMeta> = Vec::new();
    for (i, item) in up.items.iter().enumerate().rev() {
        page.push(MessageMeta {
            id: 1000 + i as u64,
            attachment: Some(Attachment { name: item.name.clone(), url: b"u".to_vec() }),
        });
    }
    let mut pg = Pagination::new(100);
    pg.feed_page(page);
    assert!(pg.done);
    let history = pg.into_history();
    assert_eq!(history.len(), 3);

    let mut dl = Download::start(history);
    for item in up.items.iter() {
        dl.advance(Some(item.body.clone())).expect("well-formed chunk");
    }
    assert_eq!(dl.status, TransferStatus::Completed);
    assert_eq!(dl.published, vec![33, 66, 100]);
    assert_eq!(dl.output, bytes);
}
