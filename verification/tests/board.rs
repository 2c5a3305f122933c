use imageboard::pages::page_bounds;
use imageboard::pages::page_items;
use imageboard::pages::sort_by_recency;
use imageboard::records::decode_thread;
use imageboard::records::encode_thread;
use imageboard::records::MediaKind;
use imageboard::records::Thread;
use imageboard::repo::create_reply_at;
use imageboard::repo::create_thread;
use imageboard::repo::create_thread_at;
use imageboard::repo::get_thread;
use imageboard::repo::list_replies;
use imageboard::repo::list_threads;
use imageboard::repo::next_reply_id;
use imageboard::repo::next_thread_id;
use imageboard::repo::BoardError;
use imageboard::repo::MediaRecord;
use imageboard::store::Store;
use imageboard::text::trim_text;
use imageboard::text::u64_to_string;

fn fresh_store() -> Store {
    Store::open_temporary().expect("temporary store")
}

#[test]
fn created_thread_gets_positive_id_and_is_retrievable() {
    let mut store = fresh_store();
    let t = create_thread_at(
        &mut store,
        &String::from("  First thread "),
        &String::from("hello board"),
        None,
        1000,
    )
    .expect("create");
    assert!(t.id > 0);
    assert_eq!(t.id, 1);
    assert_eq!(t.title, "First thread");
    assert_eq!(t.message, "hello board");
    assert_eq!(t.last_updated, 1000);
    let got = get_thread(&store, t.id).expect("get").expect("present");
    assert_eq!(got.id, t.id);
    assert_eq!(got.title, t.title);
    assert_eq!(got.message, t.message);
    assert_eq!(got.last_updated, t.last_updated);
    assert!(got.media_url.is_none());
    assert!(got.media_kind.is_none());
}

#[test]
fn thread_ids_count_up_from_one() {
    let mut store = fresh_store();
    assert_eq!(next_thread_id(&store).unwrap(), 1);
    for expected in 1u64..=3 {
        let t = create_thread_at(
            &mut store,
            &String::from("t"),
            &String::from("m"),
            None,
            expected,
        )
        .expect("create");
        assert_eq!(t.id, expected);
    }
    assert_eq!(next_thread_id(&store).unwrap(), 4);
}

#[test]
fn fresh_thread_has_no_replies_then_numbered_replies() {
    let mut store = fresh_store();
    let t = create_thread_at(
        &mut store,
        &String::from("parent"),
        &String::from("body"),
        None,
        5,
    )
    .expect("create");
    let none = list_replies(&store, t.id).expect("list");
    assert!(none.is_empty());
    assert_eq!(next_reply_id(&store, t.id).unwrap(), 1);
    for n in 1u64..=3 {
        let rep = create_reply_at(&mut store, t.id, &String::from("answer"), 5 + n).expect("reply");
        assert_eq!(rep.id, n);
    }
    let mut ids: Vec<u64> = list_replies(&store, t.id)
        .expect("list")
        .iter()
        .map(|r| r.id)
        .collect();
    ids.sort();
    assert_eq!(ids, vec![1, 2, 3]);
}

#[test]
fn reply_prefix_does_not_leak_across_parents() {
    let mut store = fresh_store();
    // Create twelve threads so that parents 1 and 12 both exist: a naive
    // prefix scheme would let parent 1's scan match parent 12's replies.
    let mut first = 0u64;
    let mut twelfth = 0u64;
    for n in 1u64..=12 {
        let t = create_thread_at(&mut store, &String::from("t"), &String::from("m"), None, n)
            .expect("create");
        if n == 1 {
            first = t.id;
        }
        if n == 12 {
            twelfth = t.id;
        }
    }
    assert_eq!(first, 1);
    assert_eq!(twelfth, 12);
    create_reply_at(&mut store, twelfth, &String::from("to twelve"), 20).expect("reply");
    assert!(list_replies(&store, first).expect("list").is_empty());
    assert_eq!(list_replies(&store, twelfth).expect("list").len(), 1);
}

#[test]
fn blank_texts_are_rejected_with_or_without_attachment() {
    let mut store = fresh_store();
    let blank_title = create_thread_at(
        &mut store,
        &String::from("   \t\n"),
        &String::from("body"),
        None,
        1,
    );
    assert_eq!(blank_title.unwrap_err(), BoardError::Validation);
    let blank_message = create_thread_at(
        &mut store,
        &String::from("title"),
        &String::from(""),
        None,
        1,
    );
    assert_eq!(blank_message.unwrap_err(), BoardError::Validation);
    let with_media = create_thread_at(
        &mut store,
        &String::from(" "),
        &String::from(" "),
        Some(MediaRecord {
            url: String::from("/uploads/images/a.png"),
            kind: MediaKind::Image,
        }),
        1,
    );
    assert_eq!(with_media.unwrap_err(), BoardError::Validation);
    let blank_reply = create_reply_at(&mut store, 1, &String::from("  "), 1);
    assert_eq!(blank_reply.unwrap_err(), BoardError::Validation);
    let unicode_blank = create_thread_at(
        &mut store,
        &String::from("\u{a0}\u{2003}\u{2028}"),
        &String::from("body"),
        None,
        1,
    );
    assert_eq!(unicode_blank.unwrap_err(), BoardError::Validation);
}

#[test]
fn reply_to_missing_thread_is_not_found() {
    let mut store = fresh_store();
    let r = create_reply_at(&mut store, 7, &String::from("hello"), 1);
    assert_eq!(r.unwrap_err(), BoardError::NotFound);
}

#[test]
fn reply_touches_only_its_parent() {
    let mut store = fresh_store();
    let a = create_thread_at(&mut store, &String::from("a"), &String::from("m"), None, 100)
        .expect("create");
    let b = create_thread_at(&mut store, &String::from("b"), &String::from("m"), None, 200)
        .expect("create");
    let before = get_thread(&store, a.id).unwrap().unwrap().last_updated;
    create_reply_at(&mut store, a.id, &String::from("bump"), 300).expect("reply");
    let after = get_thread(&store, a.id).unwrap().unwrap().last_updated;
    assert_eq!(after, 300);
    assert!(after >= before);
    let other = get_thread(&store, b.id).unwrap().unwrap();
    assert_eq!(other.last_updated, 200);
}

#[test]
fn create_thread_stamps_with_clock() {
    let mut store = fresh_store();
    let t = create_thread(&mut store, &String::from("t"), &String::from("m"), None)
        .expect("create");
    assert!(t.id == 1);
    let got = get_thread(&store, 1).unwrap().unwrap();
    assert_eq!(got.last_updated, t.last_updated);
}

#[test]
fn listing_returns_all_threads() {
    let mut store = fresh_store();
    for n in 1u64..=4 {
        create_thread_at(
            &mut store,
            &u64_to_string(n),
            &String::from("m"),
            None,
            n,
        )
        .expect("create");
    }
    let mut titles: Vec<String> = list_threads(&store)
        .expect("list")
        .iter()
        .map(|t| t.title.clone())
        .collect();
    titles.sort();
    assert_eq!(titles, vec!["1", "2", "3", "4"]);
}

fn sample_thread(id: u64, last_updated: u64) -> Thread {
    Thread {
        id,
        title: format!("thread {}", id),
        message: String::from("m"),
        last_updated,
        media_url: None,
        media_kind: None,
    }
}

#[test]
fn pagination_of_25_threads() {
    let total = 25u64;
    let p1 = page_bounds(total, 1);
    assert_eq!(p1.total_pages, 3);
    assert_eq!((p1.page, p1.start, p1.end), (1, 0, 10));
    let p2 = page_bounds(total, 2);
    assert_eq!((p2.page, p2.start, p2.end), (2, 10, 20));
    let p3 = page_bounds(total, 3);
    assert_eq!((p3.page, p3.start, p3.end), (3, 20, 25));
    let p4 = page_bounds(total, 4);
    assert_eq!((p4.page, p4.start, p4.end), (3, 20, 25));
    let p0 = page_bounds(total, 0);
    assert_eq!((p0.page, p0.start, p0.end), (1, 0, 10));
    let pneg = page_bounds(total, -3);
    assert_eq!((pneg.page, pneg.start, pneg.end), (1, 0, 10));
    let threads: Vec<Thread> = (1u64..=25).map(|n| sample_thread(n, 1000 + n)).collect();
    let sorted = sort_by_recency(&threads);
    assert_eq!(sorted.len(), 25);
    let page2 = page_items(&sorted, p2.start, p2.end);
    assert_eq!(page2.len(), 10);
    let page3 = page_items(&sorted, p3.start, p3.end);
    assert_eq!(page3.len(), 5);
}

#[test]
fn pagination_of_empty_board() {
    let p = page_bounds(0, 5);
    assert_eq!(p.total_pages, 0);
    assert_eq!((p.start, p.end), (0, 0));
}

#[test]
fn sort_is_newest_first_and_keeps_threads() {
    let threads = vec![
        sample_thread(1, 50),
        sample_thread(2, 300),
        sample_thread(3, 100),
        sample_thread(4, 300),
    ];
    let sorted = sort_by_recency(&threads);
    let stamps: Vec<u64> = sorted.iter().map(|t| t.last_updated).collect();
    assert_eq!(stamps, vec![300, 300, 100, 50]);
    let mut ids: Vec<u64> = sorted.iter().map(|t| t.id).collect();
    ids.sort();
    assert_eq!(ids, vec![1, 2, 3, 4]);
}

#[test]
fn record_round_trip_with_media() {
    let t = Thread {
        id: 42,
        title: String::from("titled"),
        message: String::from("some text with ünïcode"),
        last_updated: 1234567890,
        media_url: Some(String::from("/thumbs/images/thumb_x.png")),
        media_kind: Some(MediaKind::Image),
    };
    let bytes = encode_thread(&t);
    let back = decode_thread(&bytes).expect("decodes");
    assert_eq!(back.id, 42);
    assert_eq!(back.title, "titled");
    assert_eq!(back.message, "some text with ünïcode");
    assert_eq!(back.last_updated, 1234567890);
    assert_eq!(back.media_url.as_deref(), Some("/thumbs/images/thumb_x.png"));
    assert!(matches!(back.media_kind, Some(MediaKind::Image)));
}

#[test]
fn corrupt_record_is_skipped_not_returned() {
    let bytes: Vec<u8> = vec![1, 2, 3];
    assert!(decode_thread(&bytes).is_none());
}

#[test]
fn trimming_and_decimal_rendering() {
    assert_eq!(trim_text("  a b \t"), "a b");
    assert_eq!(trim_text("\u{a0}c\u{3000}"), "c");
    assert_eq!(trim_text("\n"), "");
    assert_eq!(u64_to_string(0), "0");
    assert_eq!(u64_to_string(1234), "1234");
    assert_eq!(u64_to_string(10), "10");
}
