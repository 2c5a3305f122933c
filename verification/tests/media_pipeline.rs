use image::GenericImageView;
use imageboard::media::finish_image;
use imageboard::media::finish_video;
use imageboard::media::ingest_stored_media;
use imageboard::media::plan_upload;
use imageboard::media::plan_upload_named;
use imageboard::media::thumb_file_name;
use imageboard::media::MediaError;
use imageboard::media::UploadPlan;
use imageboard::records::MediaKind;
use imageboard::render::escape_html;
use imageboard::render::render_error_page;
use imageboard::render::render_reply;
use imageboard::render::render_thread;
use imageboard::records::Reply;
use imageboard::records::Thread;

#[test]
fn bmp_upload_is_unsupported() {
    let r = plan_upload_named("x.bmp", &String::from("u"));
    assert_eq!(r.unwrap_err(), MediaError::UnsupportedMediaType);
    let r2 = plan_upload("x.bmp");
    assert_eq!(r2.unwrap_err(), MediaError::UnsupportedMediaType);
}

#[test]
fn text_upload_is_unsupported() {
    let r = plan_upload_named("notes.txt", &String::from("u"));
    assert_eq!(r.unwrap_err(), MediaError::UnsupportedMediaType);
    let r2 = plan_upload_named("clip.avi", &String::from("u"));
    assert_eq!(r2.unwrap_err(), MediaError::UnsupportedMediaType);
}

#[test]
fn blank_filename_is_no_attachment() {
    let r = plan_upload_named("   ", &String::from("u")).unwrap();
    assert!(matches!(r, UploadPlan::NoAttachment));
}

#[test]
fn accepted_types_are_planned_with_unique_names() {
    match plan_upload_named("photo.JPG", &String::from("uid")).unwrap() {
        UploadPlan::Image { file_name, gif } => {
            assert_eq!(file_name, "uid.jpeg");
            assert!(!gif);
        }
        _ => panic!("expected an image plan"),
    }
    match plan_upload_named("anim.gif", &String::from("uid")).unwrap() {
        UploadPlan::Image { file_name, gif } => {
            assert_eq!(file_name, "uid.gif");
            assert!(gif);
        }
        _ => panic!("expected an image plan"),
    }
    match plan_upload_named("clip.mp4", &String::from("uid")).unwrap() {
        UploadPlan::Video { file_name } => {
            assert_eq!(file_name, "uid.mp4");
        }
        _ => panic!("expected a video plan"),
    }
    match plan_upload("fresh.png").unwrap() {
        UploadPlan::Image { file_name, gif } => {
            // 36-character random identifier, a dot, and the subtype.
            assert_eq!(file_name.len(), 36 + 1 + 3);
            assert!(file_name.ends_with(".png"));
            assert!(!gif);
        }
        _ => panic!("expected an image plan"),
    }
}

#[test]
fn corrupt_image_is_invalid_and_nothing_remains() {
    // The upload path holds no decodable image at all, as after a corrupt
    // upload of a well-named file.
    let plan = UploadPlan::Image {
        file_name: String::from("corrupt-test.png"),
        gif: false,
    };
    let upload = String::from("/tmp/imageboard-test-corrupt-missing.png");
    let thumb = String::from("/tmp/imageboard-test-corrupt-missing-thumb.png");
    let r = ingest_stored_media(&plan, &upload, &thumb);
    assert_eq!(r.unwrap_err(), MediaError::InvalidMedia);
    assert!(image::open(&thumb).is_err());
}

#[test]
fn finish_image_decisions() {
    let name = String::from("n.png");
    assert_eq!(
        finish_image(&name, false, false, false).unwrap_err(),
        MediaError::InvalidMedia
    );
    let gif = finish_image(&name, true, true, false).unwrap();
    assert_eq!(gif.url, "/uploads/images/n.png");
    assert!(matches!(gif.kind, MediaKind::Image));
    let thumbed = finish_image(&name, false, true, true).unwrap();
    assert_eq!(thumbed.url, "/thumbs/images/thumb_n.png");
    let fallback = finish_image(&name, false, true, false).unwrap();
    assert_eq!(fallback.url, "/uploads/images/n.png");
    let vid = finish_video(&String::from("v.mp4"));
    assert_eq!(vid.url, "/uploads/videos/v.mp4");
    assert!(matches!(vid.kind, MediaKind::Video));
}

#[test]
fn valid_png_gets_a_bounded_thumbnail() {
    let upload = String::from("/tmp/imageboard-test-valid.png");
    let thumb = String::from("/tmp/imageboard-test-valid-thumb.png");
    let img = image::DynamicImage::new_rgb8(400, 300);
    img.save(&upload).expect("write test image");
    let plan = UploadPlan::Image {
        file_name: String::from("valid.png"),
        gif: false,
    };
    let rec = ingest_stored_media(&plan, &upload, &thumb)
        .expect("ingest")
        .expect("attachment");
    assert_eq!(rec.url, "/thumbs/images/thumb_valid.png");
    assert!(matches!(rec.kind, MediaKind::Image));
    let original = image::open(&upload).expect("original remains");
    assert_eq!(original.dimensions(), (400, 300));
    let t = image::open(&thumb).expect("thumbnail written");
    let (w, h) = t.dimensions();
    assert!(w <= 200 && h <= 200);
    // Aspect ratio preserved: a 400x300 upload scales to 200x150.
    assert_eq!((w, h), (200, 150));
}

#[test]
fn valid_gif_keeps_original_and_skips_thumbnail() {
    let upload = String::from("/tmp/imageboard-test-valid.gif");
    let thumb = String::from("/tmp/imageboard-test-valid-gif-thumb.png");
    let img = image::DynamicImage::new_rgb8(64, 64);
    img.save(&upload).expect("write test gif");
    let plan = UploadPlan::Image {
        file_name: String::from("valid.gif"),
        gif: true,
    };
    let rec = ingest_stored_media(&plan, &upload, &thumb)
        .expect("ingest")
        .expect("attachment");
    assert_eq!(rec.url, "/uploads/images/valid.gif");
    assert!(matches!(rec.kind, MediaKind::Image));
    assert!(image::open(&upload).is_ok());
    assert!(image::open(&thumb).is_err());
}

#[test]
fn thumb_names_derive_from_upload_names() {
    assert_eq!(thumb_file_name(&String::from("a.png")), "thumb_a.png");
}

#[test]
fn escaping_is_exact_and_lossless() {
    assert_eq!(escape_html("a&b"), "a&amp;b");
    assert_eq!(escape_html("<i>"), "&lt;i&gt;");
    assert_eq!(escape_html("\"x\" 'y' a/b"), "&quot;x&quot; &#x27;y&#x27; a&#x2F;b");
    assert_eq!(escape_html("plain text"), "plain text");
}

#[test]
fn html_is_escaped_in_rendering() {
    let esc = escape_html("<b>&\"quoted\"</b>");
    assert!(!esc.contains('<'));
    assert!(esc.contains("&lt;b&gt;"));
    let page = render_error_page("<script>", "a & b");
    assert!(page.contains("Error - &lt;script&gt;"));
    assert!(page.contains("a &amp; b"));
    assert!(!page.contains("<script>"));
}

#[test]
fn thread_and_reply_render_expected_fragments() {
    let t = Thread {
        id: 7,
        title: String::from("Hello <world>"),
        message: String::from("body"),
        last_updated: 1,
        media_url: Some(String::from("/uploads/videos/v.mp4")),
        media_kind: Some(MediaKind::Video),
    };
    let html = render_thread(&t);
    assert!(html.contains("href=\"/thread/7\""));
    assert!(html.contains("Hello &lt;world&gt;"));
    assert!(html.contains("<source src=\""));
    assert!(html.contains("v.mp4"));
    let r = Reply {
        id: 3,
        message: String::from("me & you"),
    };
    let rh = render_reply(&r);
    assert!(rh.contains("Reply 3"));
    assert!(rh.contains("me &amp; you"));
}
