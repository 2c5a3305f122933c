//! The media ingestion pipeline's decisions: classifying an upload by its
//! file name, naming the stored file, and choosing the recorded URL once
//! the bytes are on disk. The byte streaming itself is transport work and
//! stays with the caller; the decisions here are exact.

use crate::records::MediaKind;
use crate::repo::MediaRecord;
use crate::text::is_blank;
use crate::text::text_is_blank;
use crate::text::str_eq;
use vstd::prelude::*;
use vstd::string::StringExecFns;

verus! {

broadcast use vstd::string::group_string_axioms;

/// Why a media upload was refused.
#[derive(Debug, Clone, Copy, PartialEq, Eq, Structural)]
pub enum MediaError {
    /// The file name's type is not a permitted image or video type.
    UnsupportedMediaType,
    /// The stored bytes do not decode as an image.
    InvalidMedia,
    /// A filesystem write failed.
    IoError,
}

/// The guessed top-level media type of a file name.
pub uninterp spec fn mime_top_of(name: Seq<char>) -> Seq<char>;

/// The guessed media subtype of a file name.
pub uninterp spec fn mime_sub_of(name: Seq<char>) -> Seq<char>;

/// Relies on `mime_guess::from_path` with `first_or_octet_stream`: the
/// guess depends on the file name alone; its top-level type and subtype
/// come back as plain text.
#[verifier::external_body]
fn guess_mime(name: &str) -> (r: (String, String))
    ensures
        r.0@ == mime_top_of(name@),
        r.1@ == mime_sub_of(name@),
{
    let m = mime_guess::from_path(name).first_or_octet_stream();
    (m.type_().as_str().to_string(), m.subtype().as_str().to_string())
}

/// The image subtypes the board accepts.
pub open spec fn image_sub_ok(sub: Seq<char>) -> bool {
    sub == "jpeg"@ || sub == "png"@ || sub == "gif"@ || sub == "webp"@
}

/// Whether a file name classifies as an acceptable image.
pub open spec fn classifies_image(name: Seq<char>) -> bool {
    mime_top_of(name) == "image"@ && image_sub_ok(mime_sub_of(name))
}

/// Whether a file name classifies as an acceptable video.
pub open spec fn classifies_video(name: Seq<char>) -> bool {
    mime_top_of(name) == "video"@ && mime_sub_of(name) == "mp4"@
}

/// What the pipeline decided for one upload field.
#[derive(Debug)]
pub enum UploadPlan {
    /// No usable file name: no attachment at all.
    NoAttachment,
    /// An image to store under `file_name`; a GIF skips the thumbnail.
    Image { file_name: String, gif: bool },
    /// An MP4 video to store under `file_name`.
    Video { file_name: String },
}

/// Relies on `uuid::Uuid::new_v4` with `to_string`: a fresh random
/// identifier in the standard 36-character hyphenated form.
#[verifier::external_body]
fn fresh_upload_id() -> (r: String)
    ensures
        r@.len() == 36,
{
    uuid::Uuid::new_v4().to_string()
}

/// Classifies the upload named `filename` and names its stored file
/// `unique` dot subtype. A blank file name is no attachment; a type that
/// is neither an accepted image nor MP4 video is refused.
pub fn plan_upload_named(filename: &str, unique: &String) -> (r: Result<UploadPlan, MediaError>)
    ensures
        (r matches Ok(p) && p is NoAttachment) <==> is_blank(filename@),
        !is_blank(filename@) && classifies_image(filename@) ==> (r matches Ok(p) && p matches
            UploadPlan::Image { file_name, gif } && file_name@ == unique@ + "."@ + mime_sub_of(
            filename@,
        ) && gif == (mime_sub_of(filename@) == "gif"@)),
        !is_blank(filename@) && classifies_video(filename@) ==> (r matches Ok(p) && p matches
            UploadPlan::Video { file_name } && file_name@ == unique@ + "."@ + mime_sub_of(
            filename@,
        )),
        !is_blank(filename@) && !classifies_image(filename@) && !classifies_video(filename@)
            <==> r == Err::<UploadPlan, MediaError>(MediaError::UnsupportedMediaType),
{
    if text_is_blank(filename) {
        return Ok(UploadPlan::NoAttachment);
    }
    let (top, sub) = guess_mime(filename);
    proof {
        reveal_strlit("image");
        reveal_strlit("video");
        reveal_strlit("jpeg");
        reveal_strlit("png");
        reveal_strlit("gif");
        reveal_strlit("webp");
        reveal_strlit("mp4");
        assert("image"@[0] != "video"@[0]);
        assert("image"@ != "video"@);
    }
    if str_eq(top.as_str(), "image") {
        let sub_ok = str_eq(sub.as_str(), "jpeg") || str_eq(sub.as_str(), "png") || str_eq(
            sub.as_str(),
            "gif",
        ) || str_eq(sub.as_str(), "webp");
        if !sub_ok {
            return Err(MediaError::UnsupportedMediaType);
        }
        let gif = str_eq(sub.as_str(), "gif");
        let file_name = unique.clone().concat(".").concat(sub.as_str());
        Ok(UploadPlan::Image { file_name, gif })
    } else if str_eq(top.as_str(), "video") {
        if !str_eq(sub.as_str(), "mp4") {
            return Err(MediaError::UnsupportedMediaType);
        }
        let file_name = unique.clone().concat(".").concat(sub.as_str());
        Ok(UploadPlan::Video { file_name })
    } else {
        Err(MediaError::UnsupportedMediaType)
    }
}

/// Classifies the upload named `filename`, naming its stored file from a
/// fresh random identifier.
pub fn plan_upload(filename: &str) -> (r: Result<UploadPlan, MediaError>)
    ensures
        (r matches Ok(p) && p is NoAttachment) <==> is_blank(filename@),
        !is_blank(filename@) && classifies_image(filename@) ==> (r matches Ok(p) && p matches
            UploadPlan::Image { file_name, gif } && gif == (mime_sub_of(filename@) == "gif"@)
            && (exists|u: Seq<char>|
            u.len() == 36 && file_name@ == u + "."@ + mime_sub_of(filename@))),
        !is_blank(filename@) && classifies_video(filename@) ==> (r matches Ok(p) && p matches
            UploadPlan::Video { file_name } && (exists|u: Seq<char>|
            u.len() == 36 && file_name@ == u + "."@ + mime_sub_of(filename@))),
        !is_blank(filename@) && !classifies_image(filename@) && !classifies_video(filename@)
            <==> r == Err::<UploadPlan, MediaError>(MediaError::UnsupportedMediaType),
{
    let unique = fresh_upload_id();
    let r = plan_upload_named(filename, &unique);
    proof {
        assert(unique@.len() == 36);
    }
    r
}

/// The public URL of a stored upload image.
pub fn image_url(name: &String) -> (r: String)
    ensures
        r@ == "/uploads/images/"@ + name@,
{
    let mut s = String::new();
    s.append("/uploads/images/");
    s.append(name.as_str());
    s
}

/// The public URL of a stored video.
pub fn video_url(name: &String) -> (r: String)
    ensures
        r@ == "/uploads/videos/"@ + name@,
{
    let mut s = String::new();
    s.append("/uploads/videos/");
    s.append(name.as_str());
    s
}

/// The file name of the thumbnail derived from upload `name`.
pub fn thumb_file_name(name: &String) -> (r: String)
    ensures
        r@ == "thumb_"@ + name@,
{
    let mut s = String::new();
    s.append("thumb_");
    s.append(name.as_str());
    s
}

/// The public URL of the thumbnail derived from upload `name`.
pub fn thumb_url(name: &String) -> (r: String)
    ensures
        r@ == "/thumbs/images/thumb_"@ + name@,
{
    let mut s = String::new();
    s.append("/thumbs/images/thumb_");
    s.append(name.as_str());
    proof {
        reveal_strlit("/thumbs/images/thumb_");
        reveal_strlit("/thumbs/images/");
        reveal_strlit("thumb_");
        assert("/thumbs/images/thumb_"@ =~= "/thumbs/images/"@ + "thumb_"@);
    }
    s
}

/// The record for a stored image upload, decided from whether the stored
/// bytes decoded as an image and whether a thumbnail was written. Bytes
/// that do not decode are refused, and the caller removes the file; a GIF
/// or a failed thumbnail keeps the original's URL.
pub fn finish_image(file_name: &String, gif: bool, decoded: bool, thumb_written: bool) -> (r:
    Result<MediaRecord, MediaError>)
    ensures
        !decoded ==> r == Err::<MediaRecord, MediaError>(MediaError::InvalidMedia),
        decoded && (gif || !thumb_written) ==> (r matches Ok(m) && m.kind == MediaKind::Image
            && m.url@ == "/uploads/images/"@ + file_name@),
        decoded && !gif && thumb_written ==> (r matches Ok(m) && m.kind == MediaKind::Image
            && m.url@ == "/thumbs/images/thumb_"@ + file_name@),
{
    if !decoded {
        return Err(MediaError::InvalidMedia);
    }
    if !gif && thumb_written {
        Ok(MediaRecord { url: thumb_url(file_name), kind: MediaKind::Image })
    } else {
        Ok(MediaRecord { url: image_url(file_name), kind: MediaKind::Image })
    }
}

/// The record for a stored video upload: its URL under the videos
/// location. The declared MP4 subtype is the only validation, as
/// documented.
pub fn finish_video(file_name: &String) -> (r: MediaRecord)
    ensures
        r.kind == MediaKind::Video,
        r.url@ == "/uploads/videos/"@ + file_name@,
{
    MediaRecord { url: video_url(file_name), kind: MediaKind::Video }
}

#[verifier::external_type_specification]
#[verifier::external_body]
pub struct ExDynamicImage(image::DynamicImage);

/// Relies on `image::open`: decodes the file at `path` as an image. What
/// comes back depends on the disk, so nothing is said of it.
#[verifier::external_body]
fn image_open(path: &str) -> (r: Option<image::DynamicImage>) {
    match image::open(path) {
        Ok(i) => Some(i),
        Err(_) => None,
    }
}

/// Relies on `image::DynamicImage::thumbnail` and its `save`: writes a
/// thumbnail of `img` scaled down to fit within `w` by `h` pixels with
/// its aspect ratio preserved, at `path`, and reports whether the write
/// succeeded.
#[verifier::external_body]
fn write_thumbnail(img: &image::DynamicImage, w: u32, h: u32, path: &str) -> (r: bool) {
    img.thumbnail(w, h).save(path).is_ok()
}

/// Validates the stored image at `upload_path` and, unless it is a GIF,
/// writes its thumbnail, bounded to 200 by 200 pixels, at `thumb_path`.
/// Returns whether the bytes decoded and whether a thumbnail was written;
/// a thumbnail is only ever written for a decoded non-GIF image.
pub fn validate_and_thumbnail(upload_path: &String, thumb_path: &String, gif: bool) -> (r: (
    bool,
    bool,
))
    ensures
        r.1 ==> r.0 && !gif,
{
    match image_open(upload_path.as_str()) {
        None => (false, false),
        Some(img) => {
            if gif {
                (true, false)
            } else {
                let ok = write_thumbnail(&img, 200, 200, thumb_path.as_str());
                (true, ok)
            }
        },
    }
}

/// Completes ingestion of an upload already streamed to `upload_path`:
/// an image is validated and given a thumbnail at `thumb_path` unless it
/// is a GIF; a video is accepted as streamed. Yields the record to store
/// on the new thread, or nothing for no attachment; on `InvalidMedia` the
/// caller removes the stored file.
pub fn ingest_stored_media(plan: &UploadPlan, upload_path: &String, thumb_path: &String) -> (r:
    Result<Option<MediaRecord>, MediaError>)
    ensures
        plan is NoAttachment ==> r == Ok::<Option<MediaRecord>, MediaError>(None),
        plan matches UploadPlan::Video { file_name } ==> (r matches Ok(o) && o matches Some(m)
            && m.kind == MediaKind::Video && m.url@ == "/uploads/videos/"@ + file_name@),
        plan matches UploadPlan::Image { file_name, gif } ==> ((r matches Err(e) && e
            == MediaError::InvalidMedia) || (r matches Ok(o) && o matches Some(m) && m.kind
            == MediaKind::Image && (m.url@ == "/uploads/images/"@ + file_name@ || (gif == false
            && m.url@ == "/thumbs/images/thumb_"@ + file_name@)))),
{
    match plan {
        UploadPlan::NoAttachment => Ok(None),
        UploadPlan::Video { file_name } => Ok(Some(finish_video(file_name))),
        UploadPlan::Image { file_name, gif } => {
            let flags = validate_and_thumbnail(upload_path, thumb_path, *gif);
            match finish_image(file_name, *gif, flags.0, flags.1) {
                Ok(m) => Ok(Some(m)),
                Err(e) => Err(e),
            }
        },
    }
}

} // verus!
