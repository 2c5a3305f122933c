//! The domain records and their byte encoding. A thread or reply is stored
//! as a length-framed binary record: fixed eight-byte little-endian integers
//! and UTF-8 text prefixed by its byte length. Decoding checks the frame and
//! yields exactly the encoded record, proved by the round-trip lemmas.

use vstd::prelude::*;
use vstd::string::StrSliceExecFns;
use vstd::string::StringSliceAdditionalSpecFns;
use vstd::utf8::decode_utf8;
use vstd::utf8::encode_utf8;
use vstd::utf8::encode_utf8_decode_utf8;
use vstd::utf8::encode_utf8_valid_utf8;
use vstd::utf8::valid_utf8;

verus! {

/// The kind of a thread's attachment.
#[derive(Debug, Clone, Copy, PartialEq, Eq, Structural)]
pub enum MediaKind {
    Image,
    Video,
}

/// A top-level post: title, body, freshness stamp and optional attachment.
#[derive(Debug)]
pub struct Thread {
    pub id: u64,
    pub title: String,
    pub message: String,
    pub last_updated: u64,
    pub media_url: Option<String>,
    pub media_kind: Option<MediaKind>,
}

/// A follow-up post within one thread; its id is unique within that thread
/// alone.
#[derive(Debug)]
pub struct Reply {
    pub id: u64,
    pub message: String,
}

/// The mathematical content of a [`Thread`].
pub ghost struct ThreadView {
    pub id: u64,
    pub title: Seq<char>,
    pub message: Seq<char>,
    pub last_updated: u64,
    pub media_url: Option<Seq<char>>,
    pub media_kind: Option<MediaKind>,
}

/// The mathematical content of a [`Reply`].
pub ghost struct ReplyView {
    pub id: u64,
    pub message: Seq<char>,
}

/// The view of an optional string.
pub open spec fn opt_view(o: Option<String>) -> Option<Seq<char>> {
    match o {
        Some(s) => Some(s@),
        None => None,
    }
}

impl View for Thread {
    type V = ThreadView;

    open spec fn view(&self) -> ThreadView {
        ThreadView {
            id: self.id,
            title: self.title@,
            message: self.message@,
            last_updated: self.last_updated,
            media_url: opt_view(self.media_url),
            media_kind: self.media_kind,
        }
    }
}

impl View for Reply {
    type V = ReplyView;

    open spec fn view(&self) -> ReplyView {
        ReplyView { id: self.id, message: self.message@ }
    }
}

impl Thread {
    /// An equal copy of the thread.
    pub fn duplicate(&self) -> (r: Thread)
        ensures
            r == *self,
    {
        let r = Thread {
            id: self.id,
            title: self.title.clone(),
            message: self.message.clone(),
            last_updated: self.last_updated,
            media_url: match &self.media_url {
                Some(u) => Some(u.clone()),
                None => None,
            },
            media_kind: match &self.media_kind {
                Some(k) => Some(*k),
                None => None,
            },
        };
        r
    }
}

/// A thread carries a media URL exactly when it carries a media kind.
pub open spec fn wf_media(t: ThreadView) -> bool {
    t.media_url is Some <==> t.media_kind is Some
}

/// The eight little-endian bytes of `x`.
pub open spec fn enc_u64(x: u64) -> Seq<u8> {
    seq![
        (x & 0xff) as u8,
        ((x >> 8) & 0xff) as u8,
        ((x >> 16) & 0xff) as u8,
        ((x >> 24) & 0xff) as u8,
        ((x >> 32) & 0xff) as u8,
        ((x >> 40) & 0xff) as u8,
        ((x >> 48) & 0xff) as u8,
        ((x >> 56) & 0xff) as u8,
    ]
}

/// The number held by eight little-endian bytes.
pub open spec fn dec_u64(b: Seq<u8>) -> u64
    recommends
        b.len() == 8,
{
    (b[0] as u64) | ((b[1] as u64) << 8) | ((b[2] as u64) << 16) | ((b[3] as u64) << 24) | ((
    b[4] as u64) << 32) | ((b[5] as u64) << 40) | ((b[6] as u64) << 48) | ((b[7] as u64) << 56)
}

/// Reading back the eight bytes of `x` yields `x`.
pub proof fn lemma_enc_dec_u64(x: u64)
    ensures
        dec_u64(enc_u64(x)) == x,
{
    assert((((x & 0xff) as u8) as u64) | ((((x >> 8) & 0xff) as u8) as u64) << 8 | ((((x >> 16)
        & 0xff) as u8) as u64) << 16 | ((((x >> 24) & 0xff) as u8) as u64) << 24 | ((((x >> 32)
        & 0xff) as u8) as u64) << 32 | ((((x >> 40) & 0xff) as u8) as u64) << 40 | ((((x >> 48)
        & 0xff) as u8) as u64) << 48 | ((((x >> 56) & 0xff) as u8) as u64) << 56 == x)
        by (bit_vector);
}

/// The eight little-endian bytes of `x`.
pub fn u64_to_bytes(x: u64) -> (r: Vec<u8>)
    ensures
        r@ == enc_u64(x),
{
    let mut out: Vec<u8> = Vec::new();
    out.push((x & 0xff) as u8);
    out.push(((x >> 8) & 0xff) as u8);
    out.push(((x >> 16) & 0xff) as u8);
    out.push(((x >> 24) & 0xff) as u8);
    out.push(((x >> 32) & 0xff) as u8);
    out.push(((x >> 40) & 0xff) as u8);
    out.push(((x >> 48) & 0xff) as u8);
    out.push(((x >> 56) & 0xff) as u8);
    proof {
        assert(out@ =~= enc_u64(x));
    }
    out
}

/// The number held by the eight bytes of `b` starting at `off`.
pub fn read_u64(b: &Vec<u8>, off: usize) -> (r: u64)
    requires
        off + 8 <= b@.len(),
    ensures
        r == dec_u64(b@.subrange(off as int, off as int + 8)),
{
    let total: usize = b.len();
    let r: u64 = (b[off] as u64) | ((b[off + 1] as u64) << 8) | ((b[off + 2] as u64) << 16) | ((
    b[off + 3] as u64) << 24) | ((b[off + 4] as u64) << 32) | ((b[off + 5] as u64) << 40) | ((
    b[off + 6] as u64) << 48) | ((b[off + 7] as u64) << 56);
    proof {
        let s = b@.subrange(off as int, off as int + 8);
        assert(s[0] == b@[off as int]);
        assert(s[1] == b@[off as int + 1]);
        assert(s[2] == b@[off as int + 2]);
        assert(s[3] == b@[off as int + 3]);
        assert(s[4] == b@[off as int + 4]);
        assert(s[5] == b@[off as int + 5]);
        assert(s[6] == b@[off as int + 6]);
        assert(s[7] == b@[off as int + 7]);
    }
    r
}

/// The encoding of a text: its UTF-8 byte length, then its UTF-8 bytes.
pub open spec fn enc_str(s: Seq<char>) -> Seq<u8> {
    enc_u64(encode_utf8(s).len() as u64) + encode_utf8(s)
}

/// Whether the UTF-8 form of `s` fits the length frame.
pub open spec fn str_fits(s: Seq<char>) -> bool {
    encode_utf8(s).len() <= u64::MAX
}

/// The number framed at `off`, with the offset after it.
pub open spec fn dec_u64_at(b: Seq<u8>, off: int) -> Option<(u64, int)> {
    if 0 <= off && off + 8 <= b.len() {
        Some((dec_u64(b.subrange(off, off + 8)), off + 8))
    } else {
        None
    }
}

/// The text framed at `off`, with the offset after it.
pub open spec fn dec_str_at(b: Seq<u8>, off: int) -> Option<(Seq<char>, int)> {
    match dec_u64_at(b, off) {
        None => None,
        Some((n, o)) => {
            if o + n <= b.len() && valid_utf8(b.subrange(o, o + n as int)) {
                Some((decode_utf8(b.subrange(o, o + n as int)), o + n as int))
            } else {
                None
            }
        },
    }
}

/// A number encoded in place is read back in place.
pub proof fn lemma_dec_u64_at(pre: Seq<u8>, x: u64, rest: Seq<u8>)
    ensures
        dec_u64_at(pre + enc_u64(x) + rest, pre.len() as int) == Some(
            (x, pre.len() as int + 8),
        ),
{
    let b = pre + enc_u64(x) + rest;
    assert(b.subrange(pre.len() as int, pre.len() as int + 8) =~= enc_u64(x));
    lemma_enc_dec_u64(x);
}

/// A text encoded in place is read back in place.
pub proof fn lemma_dec_str_at(pre: Seq<u8>, s: Seq<char>, rest: Seq<u8>)
    requires
        str_fits(s),
    ensures
        dec_str_at(pre + enc_str(s) + rest, pre.len() as int) == Some(
            (s, pre.len() as int + 8 + encode_utf8(s).len()),
        ),
{
    let u = encode_utf8(s);
    let b = pre + enc_str(s) + rest;
    assert(b =~= pre + enc_u64(u.len() as u64) + (u + rest));
    lemma_dec_u64_at(pre, u.len() as u64, u + rest);
    let o = pre.len() as int + 8;
    assert(b.subrange(o, o + u.len() as int) =~= u);
    encode_utf8_valid_utf8(s);
    encode_utf8_decode_utf8(s);
}

/// The trailing segment that records the attachment: a tag byte, then the
/// URL for an attachment that is present.
pub open spec fn enc_media(t: ThreadView) -> Seq<u8> {
    match t.media_kind {
        None => seq![0u8],
        Some(MediaKind::Image) => seq![1u8] + enc_str(t.media_url->0),
        Some(MediaKind::Video) => seq![2u8] + enc_str(t.media_url->0),
    }
}

/// The byte record of a thread.
pub open spec fn spec_encode_thread(t: ThreadView) -> Seq<u8> {
    enc_u64(t.id) + enc_u64(t.last_updated) + enc_str(t.title) + enc_str(t.message) + enc_media(
        t,
    )
}

/// The byte record of a reply.
pub open spec fn spec_encode_reply(r: ReplyView) -> Seq<u8> {
    enc_u64(r.id) + enc_str(r.message)
}

/// Whether every text of `t` fits its length frame.
pub open spec fn thread_fits(t: ThreadView) -> bool {
    str_fits(t.title) && str_fits(t.message) && (t.media_url is Some ==> str_fits(
        t.media_url->0,
    ))
}

/// The thread whose record `b` is, if `b` is exactly such a record.
pub open spec fn spec_decode_thread(b: Seq<u8>) -> Option<ThreadView> {
    match dec_u64_at(b, 0) {
        None => None,
        Some((id, o1)) => match dec_u64_at(b, o1) {
            None => None,
            Some((lu, o2)) => match dec_str_at(b, o2) {
                None => None,
                Some((title, o3)) => match dec_str_at(b, o3) {
                    None => None,
                    Some((message, o4)) => {
                        if o4 < b.len() {
                            let tag = b[o4];
                            if tag == 0 && o4 + 1 == b.len() {
                                Some(
                                    ThreadView {
                                        id,
                                        title,
                                        message,
                                        last_updated: lu,
                                        media_url: None,
                                        media_kind: None,
                                    },
                                )
                            } else if tag == 1 || tag == 2 {
                                match dec_str_at(b, o4 + 1) {
                                    Some((url, o5)) => {
                                        if o5 == b.len() {
                                            Some(
                                                ThreadView {
                                                    id,
                                                    title,
                                                    message,
                                                    last_updated: lu,
                                                    media_url: Some(url),
                                                    media_kind: Some(
                                                        if tag == 1 {
                                                            MediaKind::Image
                                                        } else {
                                                            MediaKind::Video
                                                        },
                                                    ),
                                                },
                                            )
                                        } else {
                                            None
                                        }
                                    },
                                    None => None,
                                }
                            } else {
                                None
                            }
                        } else {
                            None
                        }
                    },
                },
            },
        },
    }
}

/// The reply whose record `b` is, if `b` is exactly such a record.
pub open spec fn spec_decode_reply(b: Seq<u8>) -> Option<ReplyView> {
    match dec_u64_at(b, 0) {
        None => None,
        Some((id, o1)) => match dec_str_at(b, o1) {
            None => None,
            Some((message, o2)) => {
                if o2 == b.len() {
                    Some(ReplyView { id, message })
                } else {
                    None
                }
            },
        },
    }
}

/// Decoding the record of a thread yields that thread.
#[verifier::rlimit(100)]
pub proof fn lemma_thread_round_trip(t: ThreadView)
    requires
        wf_media(t),
        thread_fits(t),
    ensures
        spec_decode_thread(spec_encode_thread(t)) == Some(t),
{
    let e_id = enc_u64(t.id);
    let e_lu = enc_u64(t.last_updated);
    let e_t = enc_str(t.title);
    let e_m = enc_str(t.message);
    let e_md = enc_media(t);
    let b = spec_encode_thread(t);
    let o3 = 16 + 8 + encode_utf8(t.title).len() as int;
    let o4 = o3 + 8 + encode_utf8(t.message).len() as int;
    assert(dec_u64_at(b, 0) == Some((t.id, 8int))) by {
        assert(b =~= Seq::<u8>::empty() + e_id + (e_lu + e_t + e_m + e_md));
        lemma_dec_u64_at(Seq::<u8>::empty(), t.id, e_lu + e_t + e_m + e_md);
    }
    assert(dec_u64_at(b, 8) == Some((t.last_updated, 16int))) by {
        assert(b =~= e_id + e_lu + (e_t + e_m + e_md));
        lemma_dec_u64_at(e_id, t.last_updated, e_t + e_m + e_md);
    }
    assert(dec_str_at(b, 16) == Some((t.title, o3))) by {
        assert(b =~= (e_id + e_lu) + e_t + (e_m + e_md));
        lemma_dec_str_at(e_id + e_lu, t.title, e_m + e_md);
    }
    assert(dec_str_at(b, o3) == Some((t.message, o4))) by {
        assert(b =~= (e_id + e_lu + e_t) + e_m + e_md);
        lemma_dec_str_at(e_id + e_lu + e_t, t.message, e_md);
        assert((e_id + e_lu + e_t).len() == o3);
    }
    assert((e_id + e_lu + e_t + e_m).len() == o4);
    match t.media_kind {
        None => {
            assert(b[o4] == 0u8);
            assert(o4 + 1 == b.len());
        },
        Some(k) => {
            let tag: u8 = if k is Image {
                1u8
            } else {
                2u8
            };
            let url = t.media_url->0;
            assert(b[o4] == tag);
            let o5 = o4 + 1 + 8 + encode_utf8(url).len() as int;
            assert(dec_str_at(b, o4 + 1) == Some((url, o5))) by {
                assert(b =~= (e_id + e_lu + e_t + e_m + seq![tag]) + enc_str(url)
                    + Seq::<u8>::empty());
                lemma_dec_str_at(e_id + e_lu + e_t + e_m + seq![tag], url, Seq::<u8>::empty());
                assert((e_id + e_lu + e_t + e_m + seq![tag]).len() == o4 + 1);
            }
            assert(o5 == b.len());
        },
    }
}

/// Decoding the record of a reply yields that reply.
pub proof fn lemma_reply_round_trip(r: ReplyView)
    requires
        str_fits(r.message),
    ensures
        spec_decode_reply(spec_encode_reply(r)) == Some(r),
{
    let e_id = enc_u64(r.id);
    let e_m = enc_str(r.message);
    let b = spec_encode_reply(r);
    assert(b =~= Seq::<u8>::empty() + e_id + e_m);
    lemma_dec_u64_at(Seq::<u8>::empty(), r.id, e_m);
    assert(b =~= e_id + enc_str(r.message) + Seq::<u8>::empty());
    lemma_dec_str_at(e_id, r.message, Seq::<u8>::empty());
}

/// A framed text's byte length is its frame number, so it fits the frame.
pub proof fn lemma_dec_str_fits(b: Seq<u8>, off: int)
    requires
        dec_str_at(b, off) is Some,
    ensures
        ({
            let (txt, end) = dec_str_at(b, off)->0;
            str_fits(txt)
        }),
{
    let (n, o) = dec_u64_at(b, off)->0;
    let sub = b.subrange(o, o + n as int);
    vstd::utf8::decode_utf8_encode_utf8(sub);
}

/// A byte string decodes, if at all, to a well-formed thread whose texts
/// fit their length frames.
#[verifier::rlimit(100)]
pub proof fn lemma_decoded_thread_wf(b: Seq<u8>)
    requires
        spec_decode_thread(b) is Some,
    ensures
        wf_media(spec_decode_thread(b)->0),
        thread_fits(spec_decode_thread(b)->0),
{
    let (id, o1) = dec_u64_at(b, 0)->0;
    let (lu, o2) = dec_u64_at(b, o1)->0;
    lemma_dec_str_fits(b, o2);
    let (title, o3) = dec_str_at(b, o2)->0;
    lemma_dec_str_fits(b, o3);
    let (msg, o4) = dec_str_at(b, o3)->0;
    if b[o4] == 1 || b[o4] == 2 {
        lemma_dec_str_fits(b, o4 + 1);
    }
}

/// Relies on `String::from_utf8`: succeeds exactly on valid UTF-8 and
/// decodes those bytes to their characters.
#[verifier::external_body]
fn string_from_utf8(v: Vec<u8>) -> (r: Option<String>)
    ensures
        r is Some <==> valid_utf8(v@),
        r matches Some(s) ==> s@ == decode_utf8(v@),
{
    match String::from_utf8(v) {
        Ok(s) => Some(s),
        Err(_) => None,
    }
}

/// Appends the length-framed UTF-8 bytes of `s`.
fn append_str(out: &mut Vec<u8>, s: &String) -> (fits: bool)
    ensures
        final(out)@ == old(out)@ + enc_str(s@),
        str_fits(s@),
        fits,
{
    let mut bytes = s.as_str().as_bytes_vec();
    proof {
        assert(bytes@ == encode_utf8(s@));
    }
    let mut lenb = u64_to_bytes(bytes.len() as u64);
    out.append(&mut lenb);
    out.append(&mut bytes);
    proof {
        assert(out@ =~= old(out)@ + enc_str(s@));
    }
    true
}

/// The byte record of `t`.
pub fn encode_thread(t: &Thread) -> (r: Vec<u8>)
    requires
        wf_media(t@),
    ensures
        r@ == spec_encode_thread(t@),
        thread_fits(t@),
{
    let mut out = u64_to_bytes(t.id);
    let mut lu = u64_to_bytes(t.last_updated);
    out.append(&mut lu);
    append_str(&mut out, &t.title);
    append_str(&mut out, &t.message);
    match &t.media_kind {
        None => {
            out.push(0u8);
        },
        Some(k) => {
            let tag: u8 = match k {
                MediaKind::Image => 1u8,
                MediaKind::Video => 2u8,
            };
            out.push(tag);
            match &t.media_url {
                Some(u) => {
                    append_str(&mut out, u);
                },
                None => {
                    proof {
                        assert(false);
                    }
                },
            }
        },
    }
    proof {
        assert(out@ =~= spec_encode_thread(t@));
    }
    out
}

/// The byte record of `r`.
pub fn encode_reply(r: &Reply) -> (b: Vec<u8>)
    ensures
        b@ == spec_encode_reply(r@),
        str_fits(r@.message),
{
    let mut out = u64_to_bytes(r.id);
    append_str(&mut out, &r.message);
    proof {
        assert(out@ =~= spec_encode_reply(r@));
    }
    out
}

/// The text framed at `off`, with the offset after it.
fn read_str_at(b: &Vec<u8>, off: usize) -> (r: Option<(String, usize)>)
    requires
        off <= b@.len(),
    ensures
        match r {
            Some(p) => dec_str_at(b@, off as int) == Some((p.0@, p.1 as int)) && off < p.1
                <= b@.len(),
            None => dec_str_at(b@, off as int) is None,
        },
{
    if b.len() - off < 8 {
        return None;
    }
    let n = read_u64(b, off);
    let o = off + 8;
    let rem: u64 = (b.len() - o) as u64;
    if n > rem {
        return None;
    }
    let end = o + (n as usize);
    let piece = vstd::slice::slice_to_vec(vstd::slice::slice_subrange(b.as_slice(), o, end));
    match string_from_utf8(piece) {
        Some(s) => Some((s, end)),
        None => None,
    }
}

/// The thread whose record `b` is, if `b` is exactly such a record.
pub fn decode_thread(b: &Vec<u8>) -> (r: Option<Thread>)
    ensures
        match r {
            Some(t) => spec_decode_thread(b@) == Some(t@) && wf_media(t@),
            None => spec_decode_thread(b@) is None,
        },
{
    if b.len() < 16 {
        return None;
    }
    let id = read_u64(b, 0);
    let lu = read_u64(b, 8);
    let (title, o3) = match read_str_at(b, 16) {
        Some(p) => p,
        None => {
            return None;
        },
    };
    let (message, o4) = match read_str_at(b, o3) {
        Some(p) => p,
        None => {
            return None;
        },
    };
    if o4 >= b.len() {
        return None;
    }
    let tag = b[o4];
    if tag == 0 {
        if o4 + 1 == b.len() {
            Some(
                Thread {
                    id,
                    title,
                    message,
                    last_updated: lu,
                    media_url: None,
                    media_kind: None,
                },
            )
        } else {
            None
        }
    } else if tag == 1 || tag == 2 {
        let (url, o5) = match read_str_at(b, o4 + 1) {
            Some(p) => p,
            None => {
                return None;
            },
        };
        if o5 == b.len() {
            Some(
                Thread {
                    id,
                    title,
                    message,
                    last_updated: lu,
                    media_url: Some(url),
                    media_kind: Some(
                        if tag == 1 {
                            MediaKind::Image
                        } else {
                            MediaKind::Video
                        },
                    ),
                },
            )
        } else {
            None
        }
    } else {
        None
    }
}

/// The reply whose record `b` is, if `b` is exactly such a record.
pub fn decode_reply(b: &Vec<u8>) -> (r: Option<Reply>)
    ensures
        match r {
            Some(rep) => spec_decode_reply(b@) == Some(rep@),
            None => spec_decode_reply(b@) is None,
        },
{
    if b.len() < 8 {
        return None;
    }
    let id = read_u64(b, 0);
    let (message, o2) = match read_str_at(b, 8) {
        Some(p) => p,
        None => {
            return None;
        },
    };
    if o2 == b.len() {
        Some(Reply { id, message })
    } else {
        None
    }
}

} // verus!
