//! The content repository: threads and replies mapped to and from records
//! under structured keys, identifier allocation by prefix counting, and the
//! freshness touch that a reply applies to its parent thread.

use crate::keys::reply_key;
use crate::keys::reply_prefix;
use crate::keys::spec_reply_key;
use crate::keys::spec_reply_prefix;
use crate::keys::spec_thread_key;
use crate::keys::thread_key;
use crate::keys::thread_prefix;
use crate::keys::thread_prefix_bytes;
use crate::records::spec_decode_reply;
use crate::records::spec_decode_thread;
use crate::records::spec_encode_reply;
use crate::records::spec_encode_thread;
use crate::records::decode_reply;
use crate::records::decode_thread;
use crate::records::encode_reply;
use crate::records::encode_thread;
use crate::records::str_fits;
use crate::records::thread_fits;
use crate::records::wf_media;
use crate::records::MediaKind;
use crate::records::Reply;
use crate::records::ReplyView;
use crate::records::Thread;
use crate::records::ThreadView;
use crate::store::count_keys;
use crate::store::entries_view;
use crate::store::has_prefix;
use crate::store::scan_result_ok;
use crate::store::Store;
use crate::text::is_blank;
use crate::text::trim_text;
use crate::text::trimmed;
use vstd::prelude::*;

verus! {

/// Why a board operation was refused or failed.
#[derive(Debug, Clone, Copy, PartialEq, Eq, Structural)]
pub enum BoardError {
    /// A required text was empty or whitespace alone.
    Validation,
    /// No thread exists under the given identifier.
    NotFound,
    /// The underlying store failed; retryable at the request level.
    Store,
}

/// An attachment already persisted by the media pipeline, ready to be
/// recorded on a new thread.
#[derive(Debug)]
pub struct MediaRecord {
    pub url: String,
    pub kind: MediaKind,
}

/// How many thread records the store holds.
pub open spec fn thread_count(m: Map<Seq<u8>, Seq<u8>>) -> nat {
    count_keys(m, thread_prefix())
}

/// How many replies the store holds for `parent`.
pub open spec fn reply_count(m: Map<Seq<u8>, Seq<u8>>, parent: u64) -> nat {
    count_keys(m, spec_reply_prefix(parent))
}

/// The thread stored under `id`: the decoded record, if the key is present
/// and its bytes form a thread record.
pub open spec fn spec_get_thread(m: Map<Seq<u8>, Seq<u8>>, id: u64) -> Option<ThreadView> {
    if m.dom().contains(spec_thread_key(id)) {
        spec_decode_thread(m[spec_thread_key(id)])
    } else {
        None
    }
}

/// The identifier the next created thread receives: one more than the
/// number of thread records now stored. Not atomic across writers, by
/// design; see the store adapter's notes.
pub fn next_thread_id(store: &Store) -> (r: Result<u64, BoardError>)
    ensures
        r matches Ok(n) ==> n as nat == thread_count(store@) + 1,
{
    let prefix = thread_prefix_bytes();
    match store.count_prefix(&prefix) {
        Ok(c) => {
            if c < u64::MAX {
                Ok(c + 1)
            } else {
                Err(BoardError::Store)
            }
        },
        Err(_) => Err(BoardError::Store),
    }
}

/// The identifier the next reply within `parent` receives: one more than
/// the number of that thread's stored replies.
pub fn next_reply_id(store: &Store, parent: u64) -> (r: Result<u64, BoardError>)
    ensures
        r matches Ok(n) ==> n as nat == reply_count(store@, parent) + 1,
{
    let prefix = reply_prefix(parent);
    match store.count_prefix(&prefix) {
        Ok(c) => {
            if c < u64::MAX {
                Ok(c + 1)
            } else {
                Err(BoardError::Store)
            }
        },
        Err(_) => Err(BoardError::Store),
    }
}

/// Looks a thread up by id: the decoded record, or nothing when the key is
/// absent or its bytes do not form a thread record.
pub fn get_thread(store: &Store, id: u64) -> (r: Result<Option<Thread>, BoardError>)
    ensures
        r matches Ok(o) ==> match o {
            Some(t) => spec_get_thread(store@, id) == Some(t@) && wf_media(t@),
            None => spec_get_thread(store@, id) is None,
        },
{
    let key = thread_key(id);
    match store.get(&key) {
        Ok(Some(bytes)) => match decode_thread(&bytes) {
            Some(t) => Ok(Some(t)),
            None => Ok(None),
        },
        Ok(None) => Ok(None),
        Err(_) => Err(BoardError::Store),
    }
}

/// What `create_thread` stores and returns on success: the trimmed texts,
/// the freshness stamp, the attachment as handed in, and the id counted
/// from the threads already stored.
pub open spec fn created_thread_ok(
    old_m: Map<Seq<u8>, Seq<u8>>,
    new_m: Map<Seq<u8>, Seq<u8>>,
    title: Seq<char>,
    message: Seq<char>,
    media: Option<MediaRecord>,
    t: ThreadView,
) -> bool {
    &&& t.id as nat == thread_count(old_m) + 1
    &&& t.id >= 1
    &&& t.title == trimmed(title)
    &&& t.message == trimmed(message)
    &&& match media {
        Some(mr) => t.media_url == Some(mr.url@) && t.media_kind == Some(mr.kind),
        None => t.media_url is None && t.media_kind is None,
    }
    &&& wf_media(t)
    &&& thread_fits(t)
    &&& new_m == old_m.insert(spec_thread_key(t.id), spec_encode_thread(t))
}

/// What a store failure during thread creation may leave behind: the one
/// record write may or may not have reached the store before the failure.
pub open spec fn thread_store_failure_ok(
    old_m: Map<Seq<u8>, Seq<u8>>,
    new_m: Map<Seq<u8>, Seq<u8>>,
    title: Seq<char>,
    message: Seq<char>,
    media: Option<MediaRecord>,
    now: u64,
) -> bool {
    let t = ThreadView {
        id: (thread_count(old_m) + 1) as u64,
        title: trimmed(title),
        message: trimmed(message),
        last_updated: now,
        media_url: match media {
            Some(mr) => Some(mr.url@),
            None => None,
        },
        media_kind: match media {
            Some(mr) => Some(mr.kind),
            None => None,
        },
    };
    new_m == old_m || new_m == old_m.insert(spec_thread_key(t.id), spec_encode_thread(t))
}

/// Creates a thread stamped `now`. Rejects blank title or message before
/// touching the store; otherwise allocates the next id and persists the
/// record.
pub fn create_thread_at(
    store: &mut Store,
    title: &String,
    message: &String,
    media: Option<MediaRecord>,
    now: u64,
) -> (r: Result<Thread, BoardError>)
    ensures
        (r matches Err(e) && e == BoardError::Validation) <==> (is_blank(title@) || is_blank(
            message@,
        )),
        r matches Err(e) && e == BoardError::Validation ==> final(store)@ == old(store)@,
        r matches Err(e) && e == BoardError::Store ==> thread_store_failure_ok(
            old(store)@,
            final(store)@,
            title@,
            message@,
            media,
            now,
        ),
        !(r matches Err(e) && e == BoardError::NotFound),
        r matches Ok(t) ==> created_thread_ok(
            old(store)@,
            final(store)@,
            title@,
            message@,
            media,
            t@,
        ) && t@.last_updated == now,
{
    let tt = trim_text(title.as_str());
    let tm = trim_text(message.as_str());
    if tt.as_str().is_empty() || tm.as_str().is_empty() {
        return Err(BoardError::Validation);
    }
    let id = match next_thread_id(store) {
        Ok(i) => i,
        Err(_) => {
            return Err(BoardError::Store);
        },
    };
    let (media_url, media_kind) = match media {
        Some(mr) => (Some(mr.url), Some(mr.kind)),
        None => (None, None),
    };
    let t = Thread { id, title: tt, message: tm, last_updated: now, media_url, media_kind };
    let bytes = encode_thread(&t);
    let key = thread_key(id);
    match store.put(&key, &bytes) {
        Ok(u) => Ok(t),
        Err(_) => Err(BoardError::Store),
    }
}

/// Relies on `chrono::Utc::now`: the moment of the call as a Unix
/// timestamp in seconds.
#[verifier::external_body]
fn unix_now() -> (r: i64) {
    chrono::Utc::now().timestamp()
}

/// The time now in seconds since the Unix epoch, clamped below at zero.
pub fn current_unix_time() -> (r: u64) {
    let t = unix_now();
    if t < 0 {
        0u64
    } else {
        t as u64
    }
}

/// Creates a thread stamped with the time of the call.
pub fn create_thread(
    store: &mut Store,
    title: &String,
    message: &String,
    media: Option<MediaRecord>,
) -> (r: Result<Thread, BoardError>)
    ensures
        (r matches Err(e) && e == BoardError::Validation) <==> (is_blank(title@) || is_blank(
            message@,
        )),
        r matches Err(e) && e == BoardError::Validation ==> final(store)@ == old(store)@,
        r matches Err(e) && e == BoardError::Store ==> exists|now: u64|
            thread_store_failure_ok(old(store)@, final(store)@, title@, message@, media, now),
        !(r matches Err(e) && e == BoardError::NotFound),
        r matches Ok(t) ==> created_thread_ok(
            old(store)@,
            final(store)@,
            title@,
            message@,
            media,
            t@,
        ),
{
    let now = current_unix_time();
    create_thread_at(store, title, message, media, now)
}

/// What `create_reply` stores on success: the reply record under its
/// composite key, then the parent re-stamped to `now`.
pub open spec fn replied_ok(
    old_m: Map<Seq<u8>, Seq<u8>>,
    new_m: Map<Seq<u8>, Seq<u8>>,
    parent: u64,
    message: Seq<char>,
    now: u64,
    rep: ReplyView,
) -> bool {
    let pv = spec_get_thread(old_m, parent)->0;
    let touched = ThreadView { last_updated: now, ..pv };
    &&& spec_get_thread(old_m, parent) is Some
    &&& rep.id as nat == reply_count(old_m, parent) + 1
    &&& rep.id >= 1
    &&& rep.message == trimmed(message)
    &&& str_fits(rep.message)
    &&& new_m == old_m.insert(spec_reply_key(parent, rep.id), spec_encode_reply(rep)).insert(
        spec_thread_key(parent),
        spec_encode_thread(touched),
    )
}

/// What a store failure during a reply may leave behind: the reply write
/// and the parent's freshness touch are two independent puts, and either
/// may fail with its update already applied. The store is unchanged, or
/// holds exactly the new reply record with the parent not yet re-stamped,
/// or holds the reply and the re-stamped parent both.
pub open spec fn reply_store_failure_ok(
    old_m: Map<Seq<u8>, Seq<u8>>,
    new_m: Map<Seq<u8>, Seq<u8>>,
    parent: u64,
    message: Seq<char>,
    now: u64,
) -> bool {
    let rep = ReplyView {
        id: (reply_count(old_m, parent) + 1) as u64,
        message: trimmed(message),
    };
    ||| new_m == old_m
    ||| new_m == old_m.insert(spec_reply_key(parent, rep.id), spec_encode_reply(rep))
    ||| replied_ok(old_m, new_m, parent, message, now, rep)
}

/// Replies to `parent`, stamping the parent's freshness with `now`.
/// Rejects a blank message before touching the store; fails with
/// `NotFound`, the store unchanged, when no such thread exists. On success
/// the reply record and the re-stamped parent are both persisted.
pub fn create_reply_at(store: &mut Store, parent: u64, message: &String, now: u64) -> (r: Result<
    Reply,
    BoardError,
>)
    ensures
        (r matches Err(e) && e == BoardError::Validation) <==> is_blank(message@),
        r matches Err(e) && (e == BoardError::Validation || e == BoardError::NotFound)
            ==> final(store)@ == old(store)@,
        r matches Err(e) && e == BoardError::NotFound ==> spec_get_thread(old(store)@, parent)
            is None,
        !is_blank(message@) && spec_get_thread(old(store)@, parent) is None ==> (r matches Err(
            e,
        ) && e != BoardError::Validation),
        r matches Err(e) && e == BoardError::Store ==> reply_store_failure_ok(
            old(store)@,
            final(store)@,
            parent,
            message@,
            now,
        ),
        r matches Ok(rep) ==> replied_ok(old(store)@, final(store)@, parent, message@, now, rep@),
{
    let tm = trim_text(message.as_str());
    if tm.as_str().is_empty() {
        return Err(BoardError::Validation);
    }
    let parent_thread = match get_thread(store, parent) {
        Ok(Some(t)) => t,
        Ok(None) => {
            return Err(BoardError::NotFound);
        },
        Err(_) => {
            return Err(BoardError::Store);
        },
    };
    let rid = match next_reply_id(store, parent) {
        Ok(i) => i,
        Err(_) => {
            return Err(BoardError::Store);
        },
    };
    let rep = Reply { id: rid, message: tm };
    let rbytes = encode_reply(&rep);
    let rkey = reply_key(parent, rid);
    match store.put(&rkey, &rbytes) {
        Ok(u) => {},
        Err(_) => {
            return Err(BoardError::Store);
        },
    }
    let touched = Thread { last_updated: now, ..parent_thread };
    let tbytes = encode_thread(&touched);
    let tkey = thread_key(parent);
    match store.put(&tkey, &tbytes) {
        Ok(u) => Ok(rep),
        Err(_) => Err(BoardError::Store),
    }
}

/// Replies to `parent`, stamping the parent with the time of the call.
pub fn create_reply(store: &mut Store, parent: u64, message: &String) -> (r: Result<
    Reply,
    BoardError,
>)
    ensures
        (r matches Err(e) && e == BoardError::Validation) <==> is_blank(message@),
        r matches Err(e) && (e == BoardError::Validation || e == BoardError::NotFound)
            ==> final(store)@ == old(store)@,
        r matches Err(e) && e == BoardError::NotFound ==> spec_get_thread(old(store)@, parent)
            is None,
        !is_blank(message@) && spec_get_thread(old(store)@, parent) is None ==> (r matches Err(
            e,
        ) && e != BoardError::Validation),
        r matches Err(e) && e == BoardError::Store ==> exists|now: u64|
            reply_store_failure_ok(old(store)@, final(store)@, parent, message@, now),
        r matches Ok(rep) ==> exists|now: u64|
            replied_ok(old(store)@, final(store)@, parent, message@, now, rep@),
{
    let now = current_unix_time();
    let r = create_reply_at(store, parent, message, now);
    r
}

/// The sequence of views of a vector of threads.
pub open spec fn threads_view(v: Seq<Thread>) -> Seq<ThreadView> {
    v.map_values(|t: Thread| t@)
}

/// The sequence of views of a vector of replies.
pub open spec fn replies_view(v: Seq<Reply>) -> Seq<ReplyView> {
    v.map_values(|r: Reply| r@)
}

/// Whether some stored thread record decodes to `tv`.
pub open spec fn stored_thread(m: Map<Seq<u8>, Seq<u8>>, tv: ThreadView) -> bool {
    exists|k: Seq<u8>|
        #[trigger] m.dom().contains(k) && has_prefix(k, thread_prefix()) && spec_decode_thread(
            m[k],
        ) == Some(tv)
}

/// Whether some stored reply record of `parent` decodes to `rv`.
pub open spec fn stored_reply(m: Map<Seq<u8>, Seq<u8>>, parent: u64, rv: ReplyView) -> bool {
    exists|k: Seq<u8>|
        #[trigger] m.dom().contains(k) && has_prefix(k, spec_reply_prefix(parent))
            && spec_decode_reply(m[k]) == Some(rv)
}

/// The stored keys whose values decode as thread records.
pub open spec fn decodable_thread_keys(m: Map<Seq<u8>, Seq<u8>>) -> Set<Seq<u8>> {
    m.dom().filter(
        |k: Seq<u8>| has_prefix(k, thread_prefix()) && spec_decode_thread(m[k]) is Some,
    )
}

/// The stored keys of `parent` whose values decode as reply records.
pub open spec fn decodable_reply_keys(m: Map<Seq<u8>, Seq<u8>>, parent: u64) -> Set<Seq<u8>> {
    m.dom().filter(
        |k: Seq<u8>| has_prefix(k, spec_reply_prefix(parent)) && spec_decode_reply(m[k]) is Some,
    )
}

/// The keys behind one listing: in ascending byte order, exactly the
/// stored keys whose records decode, each listed entry the decoding of
/// its key in turn.
pub open spec fn thread_listing_keys_ok(
    m: Map<Seq<u8>, Seq<u8>>,
    ks: Seq<Seq<u8>>,
    ts: Seq<ThreadView>,
) -> bool {
    &&& ks.len() == ts.len()
    &&& forall|q: int| 0 <= q < ks.len() ==> decodable_thread_keys(m).contains(#[trigger] ks[q])
    &&& forall|k: Seq<u8>|
        #![trigger decodable_thread_keys(m).contains(k)]
        decodable_thread_keys(m).contains(k) ==> ks.contains(k)
    &&& forall|q1: int, q2: int|
        0 <= q1 < q2 < ks.len() ==> crate::store::bytes_lt(#[trigger] ks[q1], #[trigger] ks[q2])
    &&& forall|q: int| 0 <= q < ks.len() ==> spec_decode_thread(m[ks[q]]) == Some(#[trigger] ts[q])
}

/// Likewise for the replies of one parent.
pub open spec fn reply_listing_keys_ok(
    m: Map<Seq<u8>, Seq<u8>>,
    parent: u64,
    ks: Seq<Seq<u8>>,
    rs: Seq<ReplyView>,
) -> bool {
    &&& ks.len() == rs.len()
    &&& forall|q: int|
        0 <= q < ks.len() ==> decodable_reply_keys(m, parent).contains(#[trigger] ks[q])
    &&& forall|k: Seq<u8>|
        #![trigger decodable_reply_keys(m, parent).contains(k)]
        decodable_reply_keys(m, parent).contains(k) ==> ks.contains(k)
    &&& forall|q1: int, q2: int|
        0 <= q1 < q2 < ks.len() ==> crate::store::bytes_lt(#[trigger] ks[q1], #[trigger] ks[q2])
    &&& forall|q: int| 0 <= q < ks.len() ==> spec_decode_reply(m[ks[q]]) == Some(#[trigger] rs[q])
}

/// What listing threads returns: one entry per stored record that decodes
/// as a thread, in ascending order of their keys; each listed thread
/// decodes from some stored record, and every stored record that decodes
/// is listed.
pub open spec fn thread_listing_ok(m: Map<Seq<u8>, Seq<u8>>, ts: Seq<ThreadView>) -> bool {
    &&& exists|ks: Seq<Seq<u8>>| thread_listing_keys_ok(m, ks, ts)
    &&& ts.len() <= thread_count(m)
    &&& decodable_thread_keys(m).finite()
    &&& ts.len() == decodable_thread_keys(m).len()
    &&& forall|i: int| 0 <= i < ts.len() ==> stored_thread(m, #[trigger] ts[i])
    &&& forall|k: Seq<u8>|
        #![trigger m.dom().contains(k)]
        m.dom().contains(k) && has_prefix(k, thread_prefix()) && spec_decode_thread(m[k]) is Some
            ==> ts.contains(spec_decode_thread(m[k])->0)
}

/// What listing replies returns, likewise, for one parent's records.
pub open spec fn reply_listing_ok(
    m: Map<Seq<u8>, Seq<u8>>,
    parent: u64,
    rs: Seq<ReplyView>,
) -> bool {
    &&& exists|ks: Seq<Seq<u8>>| reply_listing_keys_ok(m, parent, ks, rs)
    &&& rs.len() <= reply_count(m, parent)
    &&& decodable_reply_keys(m, parent).finite()
    &&& rs.len() == decodable_reply_keys(m, parent).len()
    &&& forall|i: int| 0 <= i < rs.len() ==> stored_reply(m, parent, #[trigger] rs[i])
    &&& forall|k: Seq<u8>|
        #![trigger m.dom().contains(k)]
        m.dom().contains(k) && has_prefix(k, spec_reply_prefix(parent)) && spec_decode_reply(m[k])
            is Some ==> rs.contains(spec_decode_reply(m[k])->0)
}

/// Every stored thread, in store order, skipping any record that does not
/// decode; the caller imposes an order of its own.
#[verifier::rlimit(100)]
#[verifier::spinoff_prover]
pub fn list_threads(store: &Store) -> (r: Result<Vec<Thread>, BoardError>)
    ensures
        r matches Ok(v) ==> thread_listing_ok(store@, threads_view(v@)),
{
    let prefix = thread_prefix_bytes();
    let entries = match store.scan_entries(&prefix) {
        Ok(e) => e,
        Err(_) => {
            return Err(BoardError::Store);
        },
    };
    let ghost es = entries_view(entries@);
    let mut out: Vec<Thread> = Vec::new();
    let mut j: usize = 0;
    let ghost mut seen: Set<Seq<u8>> = Set::empty();
    let ghost mut ks: Seq<Seq<u8>> = Seq::empty();
    while j < entries.len()
        invariant
            j <= entries@.len(),
            out@.len() <= j,
            es == entries_view(entries@),
            scan_result_ok(store@, thread_prefix(), es),
            seen.finite(),
            out@.len() == seen.len(),
            ks.len() == out@.len(),
            ks.to_set() == seen,
            forall|q1: int, q2: int|
                0 <= q1 < q2 < ks.len() ==> crate::store::bytes_lt(
                    #[trigger] ks[q1],
                    #[trigger] ks[q2],
                ),
            forall|q: int|
                0 <= q < ks.len() ==> spec_decode_thread(store@[ks[q]]) == Some(
                    #[trigger] threads_view(out@)[q],
                ),
            forall|k: Seq<u8>|
                #![trigger seen.contains(k)]
                seen.contains(k) ==> exists|ii: int|
                    0 <= ii < j && (#[trigger] es[ii]).0 == k && spec_decode_thread(es[ii].1)
                        is Some,
            forall|ii: int|
                #![trigger es[ii]]
                0 <= ii < j && spec_decode_thread(es[ii].1) is Some ==> seen.contains(es[ii].0),
            forall|i: int|
                0 <= i < out@.len() ==> stored_thread(store@, #[trigger] threads_view(out@)[i]),
            forall|jj: int|
                0 <= jj < j ==> (spec_decode_thread(#[trigger] es[jj].1) is Some ==> threads_view(
                    out@,
                ).contains(spec_decode_thread(es[jj].1)->0)),
        decreases entries@.len() - j,
    {
        let val = &entries[j].1;
        proof {
            assert(es[j as int].1 == val@);
            assert(es[j as int].0 == entries@[j as int].0@);
        }
        match decode_thread(val) {
            Some(t) => {
                let ghost old_out = out@;
                out.push(t);
                proof {
                    let k0 = es[j as int].0;
                    assert(store@.dom().contains(k0) && has_prefix(k0, thread_prefix()));
                    assert(store@[k0] == es[j as int].1);
                    assert(spec_decode_thread(store@[k0]) == Some(t@));
                    assert(out@ =~= old_out.push(t));
                    let keys = es.map_values(|e: (Seq<u8>, Seq<u8>)| e.0);
                    if seen.contains(k0) {
                        let ii = choose|ii: int|
                            0 <= ii < j && es[ii].0 == k0 && spec_decode_thread(es[ii].1) is Some;
                        assert(keys[ii] == k0 && keys[j as int] == k0);
                        assert(false);
                    }
                    assert forall|q: int| 0 <= q < ks.len() implies crate::store::bytes_lt(
                        ks[q],
                        k0,
                    ) by {
                        assert(ks.to_set().contains(ks[q]));
                        let ii = choose|ii: int|
                            0 <= ii < j && es[ii].0 == ks[q] && spec_decode_thread(es[ii].1)
                                is Some;
                        assert(crate::store::bytes_lt(es[ii].0, es[j as int].0));
                    }
                    let ghost old_ks = ks;
                    ks = ks.push(k0);
                    seen = seen.insert(k0);
                    assert(ks.to_set() =~= seen) by {
                        assert forall|x: Seq<u8>| ks.to_set().contains(x) implies seen.contains(
                            x,
                        ) by {
                            let q = choose|q: int| 0 <= q < ks.len() && ks[q] == x;
                            if q < old_ks.len() {
                                assert(old_ks[q] == x);
                                assert(old_ks.to_set().contains(x));
                            }
                        }
                        assert forall|x: Seq<u8>| seen.contains(x) implies ks.to_set().contains(
                            x,
                        ) by {
                            if x == k0 {
                                assert(ks[ks.len() - 1] == x);
                            } else {
                                assert(old_ks.to_set().contains(x));
                                let q = choose|q: int| 0 <= q < old_ks.len() && old_ks[q] == x;
                                assert(ks[q] == x);
                            }
                        }
                    }
                    assert forall|q: int| 0 <= q < ks.len() implies spec_decode_thread(
                        store@[ks[q]],
                    ) == Some(#[trigger] threads_view(out@)[q]) by {
                        if q < old_ks.len() {
                            assert(ks[q] == old_ks[q]);
                            assert(threads_view(out@)[q] == threads_view(old_out)[q]);
                        } else {
                            assert(ks[q] == k0);
                            assert(threads_view(out@)[q] == t@);
                        }
                    }
                    assert forall|k: Seq<u8>| #[trigger] seen.contains(k) implies exists|ii: int|
                        0 <= ii < j + 1 && (#[trigger] es[ii]).0 == k && spec_decode_thread(
                            es[ii].1,
                        ) is Some by {
                        if k == k0 {
                            assert(0 <= j < j + 1 && es[j as int].0 == k && spec_decode_thread(
                                es[j as int].1,
                            ) is Some);
                        }
                    }
                    assert(stored_thread(store@, t@));
                    assert forall|i: int| 0 <= i < out@.len() implies stored_thread(
                        store@,
                        #[trigger] threads_view(out@)[i],
                    ) by {
                        if i < old_out.len() {
                            assert(threads_view(out@)[i] == threads_view(old_out)[i]);
                        } else {
                            assert(threads_view(out@)[i] == t@);
                        }
                    }
                    assert(threads_view(out@)[out@.len() - 1] == t@);
                    assert forall|jj: int|
                        0 <= jj < j + 1 && spec_decode_thread(#[trigger] es[jj].1)
                            is Some implies threads_view(out@).contains(
                        spec_decode_thread(es[jj].1)->0,
                    ) by {
                        if jj < j {
                            let ii = choose|ii: int|
                                0 <= ii < threads_view(old_out).len() && threads_view(old_out)[ii]
                                    == spec_decode_thread(es[jj].1)->0;
                            assert(threads_view(out@)[ii] == threads_view(old_out)[ii]);
                        } else {
                            assert(threads_view(out@)[out@.len() - 1] == t@);
                        }
                    }
                }
            },
            None => {
                proof {
                    assert(spec_decode_thread(es[j as int].1) is None);
                }
            },
        }
        j = j + 1;
    }
    proof {
        crate::store::lemma_scan_count(store@, thread_prefix(), es);
        assert forall|k: Seq<u8>|
            store@.dom().contains(k) && has_prefix(k, thread_prefix()) && spec_decode_thread(
                store@[k],
            ) is Some implies threads_view(out@).contains(spec_decode_thread(store@[k])->0) by {
            let keys = es.map_values(|e: (Seq<u8>, Seq<u8>)| e.0);
            assert(keys.contains(k));
            let jj = choose|jj: int| 0 <= jj < keys.len() && keys[jj] == k;
            assert(es[jj].0 == k);
            assert(es[jj].1 == store@[k]);
        }
        assert forall|k: Seq<u8>| seen.contains(k) implies decodable_thread_keys(
            store@,
        ).contains(k) by {
            let ii = choose|ii: int|
                0 <= ii < j && es[ii].0 == k && spec_decode_thread(es[ii].1) is Some;
            assert(store@.dom().contains(es[ii].0) && has_prefix(es[ii].0, thread_prefix())
                && es[ii].1 == store@[es[ii].0]);
        }
        assert forall|k: Seq<u8>| decodable_thread_keys(store@).contains(k) implies seen.contains(
            k,
        ) by {
            let keys = es.map_values(|e: (Seq<u8>, Seq<u8>)| e.0);
            assert(store@.dom().contains(k) && has_prefix(k, thread_prefix()));
            assert(keys.contains(k));
            let jj = choose|jj: int| 0 <= jj < keys.len() && keys[jj] == k;
            assert(es[jj].0 == k);
            assert(es[jj].1 == store@[k]);
        }
        assert(seen =~= decodable_thread_keys(store@));
        assert(thread_listing_keys_ok(store@, ks, threads_view(out@))) by {
            assert forall|q: int| 0 <= q < ks.len() implies decodable_thread_keys(
                store@,
            ).contains(#[trigger] ks[q]) by {
                assert(ks.to_set().contains(ks[q]));
            }
            assert forall|k: Seq<u8>| decodable_thread_keys(store@).contains(
                k,
            ) implies ks.contains(k) by {
                assert(seen.contains(k));
                assert(ks.to_set().contains(k));
            }
        }
    }
    Ok(out)
}

/// Every stored reply of `parent`, in store order, skipping any record
/// that does not decode.
#[verifier::rlimit(100)]
#[verifier::spinoff_prover]
pub fn list_replies(store: &Store, parent: u64) -> (r: Result<Vec<Reply>, BoardError>)
    ensures
        r matches Ok(v) ==> reply_listing_ok(store@, parent, replies_view(v@)),
{
    let prefix = reply_prefix(parent);
    let entries = match store.scan_entries(&prefix) {
        Ok(e) => e,
        Err(_) => {
            return Err(BoardError::Store);
        },
    };
    let ghost es = entries_view(entries@);
    let mut out: Vec<Reply> = Vec::new();
    let mut j: usize = 0;
    let ghost mut seen: Set<Seq<u8>> = Set::empty();
    let ghost mut ks: Seq<Seq<u8>> = Seq::empty();
    while j < entries.len()
        invariant
            j <= entries@.len(),
            out@.len() <= j,
            es == entries_view(entries@),
            scan_result_ok(store@, spec_reply_prefix(parent), es),
            seen.finite(),
            out@.len() == seen.len(),
            ks.len() == out@.len(),
            ks.to_set() == seen,
            forall|q1: int, q2: int|
                0 <= q1 < q2 < ks.len() ==> crate::store::bytes_lt(
                    #[trigger] ks[q1],
                    #[trigger] ks[q2],
                ),
            forall|q: int|
                0 <= q < ks.len() ==> spec_decode_reply(store@[ks[q]]) == Some(
                    #[trigger] replies_view(out@)[q],
                ),
            forall|k: Seq<u8>|
                #![trigger seen.contains(k)]
                seen.contains(k) ==> exists|ii: int|
                    0 <= ii < j && (#[trigger] es[ii]).0 == k && spec_decode_reply(es[ii].1)
                        is Some,
            forall|ii: int|
                #![trigger es[ii]]
                0 <= ii < j && spec_decode_reply(es[ii].1) is Some ==> seen.contains(es[ii].0),
            forall|i: int|
                0 <= i < out@.len() ==> stored_reply(
                    store@,
                    parent,
                    #[trigger] replies_view(out@)[i],
                ),
            forall|jj: int|
                0 <= jj < j ==> (spec_decode_reply(#[trigger] es[jj].1) is Some ==> replies_view(
                    out@,
                ).contains(spec_decode_reply(es[jj].1)->0)),
        decreases entries@.len() - j,
    {
        let val = &entries[j].1;
        proof {
            assert(es[j as int].1 == val@);
            assert(es[j as int].0 == entries@[j as int].0@);
        }
        match decode_reply(val) {
            Some(rep) => {
                let ghost old_out = out@;
                out.push(rep);
                proof {
                    let k0 = es[j as int].0;
                    assert(store@.dom().contains(k0) && has_prefix(k0, spec_reply_prefix(parent)));
                    assert(store@[k0] == es[j as int].1);
                    assert(spec_decode_reply(store@[k0]) == Some(rep@));
                    assert(out@ =~= old_out.push(rep));
                    let keys = es.map_values(|e: (Seq<u8>, Seq<u8>)| e.0);
                    if seen.contains(k0) {
                        let ii = choose|ii: int|
                            0 <= ii < j && es[ii].0 == k0 && spec_decode_reply(es[ii].1) is Some;
                        assert(keys[ii] == k0 && keys[j as int] == k0);
                        assert(false);
                    }
                    assert forall|q: int| 0 <= q < ks.len() implies crate::store::bytes_lt(
                        ks[q],
                        k0,
                    ) by {
                        assert(ks.to_set().contains(ks[q]));
                        let ii = choose|ii: int|
                            0 <= ii < j && es[ii].0 == ks[q] && spec_decode_reply(es[ii].1)
                                is Some;
                        assert(crate::store::bytes_lt(es[ii].0, es[j as int].0));
                    }
                    let ghost old_ks = ks;
                    ks = ks.push(k0);
                    seen = seen.insert(k0);
                    assert(ks.to_set() =~= seen) by {
                        assert forall|x: Seq<u8>| ks.to_set().contains(x) implies seen.contains(
                            x,
                        ) by {
                            let q = choose|q: int| 0 <= q < ks.len() && ks[q] == x;
                            if q < old_ks.len() {
                                assert(old_ks[q] == x);
                                assert(old_ks.to_set().contains(x));
                            }
                        }
                        assert forall|x: Seq<u8>| seen.contains(x) implies ks.to_set().contains(
                            x,
                        ) by {
                            if x == k0 {
                                assert(ks[ks.len() - 1] == x);
                            } else {
                                assert(old_ks.to_set().contains(x));
                                let q = choose|q: int| 0 <= q < old_ks.len() && old_ks[q] == x;
                                assert(ks[q] == x);
                            }
                        }
                    }
                    assert forall|q: int| 0 <= q < ks.len() implies spec_decode_reply(
                        store@[ks[q]],
                    ) == Some(#[trigger] replies_view(out@)[q]) by {
                        if q < old_ks.len() {
                            assert(ks[q] == old_ks[q]);
                            assert(replies_view(out@)[q] == replies_view(old_out)[q]);
                        } else {
                            assert(ks[q] == k0);
                            assert(replies_view(out@)[q] == rep@);
                        }
                    }
                    assert forall|k: Seq<u8>| #[trigger] seen.contains(k) implies exists|ii: int|
                        0 <= ii < j + 1 && (#[trigger] es[ii]).0 == k && spec_decode_reply(
                            es[ii].1,
                        ) is Some by {
                        if k == k0 {
                            assert(0 <= j < j + 1 && es[j as int].0 == k && spec_decode_reply(
                                es[j as int].1,
                            ) is Some);
                        }
                    }
                    assert(stored_reply(store@, parent, rep@));
                    assert forall|i: int| 0 <= i < out@.len() implies stored_reply(
                        store@,
                        parent,
                        #[trigger] replies_view(out@)[i],
                    ) by {
                        if i < old_out.len() {
                            assert(replies_view(out@)[i] == replies_view(old_out)[i]);
                        } else {
                            assert(replies_view(out@)[i] == rep@);
                        }
                    }
                    assert(replies_view(out@)[out@.len() - 1] == rep@);
                    assert forall|jj: int|
                        0 <= jj < j + 1 && spec_decode_reply(#[trigger] es[jj].1)
                            is Some implies replies_view(out@).contains(
                        spec_decode_reply(es[jj].1)->0,
                    ) by {
                        if jj < j {
                            let ii = choose|ii: int|
                                0 <= ii < replies_view(old_out).len() && replies_view(old_out)[ii]
                                    == spec_decode_reply(es[jj].1)->0;
                            assert(replies_view(out@)[ii] == replies_view(old_out)[ii]);
                        } else {
                            assert(replies_view(out@)[out@.len() - 1] == rep@);
                        }
                    }
                }
            },
            None => {
                proof {
                    assert(spec_decode_reply(es[j as int].1) is None);
                }
            },
        }
        j = j + 1;
    }
    proof {
        crate::store::lemma_scan_count(store@, spec_reply_prefix(parent), es);
        assert forall|k: Seq<u8>|
            store@.dom().contains(k) && has_prefix(k, spec_reply_prefix(parent))
                && spec_decode_reply(store@[k]) is Some implies replies_view(out@).contains(
            spec_decode_reply(store@[k])->0,
        ) by {
            let keys = es.map_values(|e: (Seq<u8>, Seq<u8>)| e.0);
            assert(keys.contains(k));
            let jj = choose|jj: int| 0 <= jj < keys.len() && keys[jj] == k;
            assert(es[jj].0 == k);
            assert(es[jj].1 == store@[k]);
        }
        assert forall|k: Seq<u8>| seen.contains(k) implies decodable_reply_keys(
            store@,
            parent,
        ).contains(k) by {
            let ii = choose|ii: int|
                0 <= ii < j && es[ii].0 == k && spec_decode_reply(es[ii].1) is Some;
            assert(store@.dom().contains(es[ii].0) && has_prefix(
                es[ii].0,
                spec_reply_prefix(parent),
            ) && es[ii].1 == store@[es[ii].0]);
        }
        assert forall|k: Seq<u8>| decodable_reply_keys(store@, parent).contains(
            k,
        ) implies seen.contains(k) by {
            let keys = es.map_values(|e: (Seq<u8>, Seq<u8>)| e.0);
            assert(store@.dom().contains(k) && has_prefix(k, spec_reply_prefix(parent)));
            assert(keys.contains(k));
            let jj = choose|jj: int| 0 <= jj < keys.len() && keys[jj] == k;
            assert(es[jj].0 == k);
            assert(es[jj].1 == store@[k]);
        }
        assert(seen =~= decodable_reply_keys(store@, parent));
        assert(reply_listing_keys_ok(store@, parent, ks, replies_view(out@))) by {
            assert forall|q: int| 0 <= q < ks.len() implies decodable_reply_keys(
                store@,
                parent,
            ).contains(#[trigger] ks[q]) by {
                assert(ks.to_set().contains(ks[q]));
            }
            assert forall|k: Seq<u8>| decodable_reply_keys(store@, parent).contains(
                k,
            ) implies ks.contains(k) by {
                assert(seen.contains(k));
                assert(ks.to_set().contains(k));
            }
        }
    }
    Ok(out)
}

} // verus!
