//! The board's cross-operation laws, proved over the store model: a
//! created thread is retrievable unchanged, replies take consecutive
//! identifiers starting at one, and a reply re-stamps its parent alone.

use crate::keys::lemma_reply_key_injective;
use crate::keys::lemma_reply_key_prefixed;
use crate::keys::lemma_thread_key_injective;
use crate::keys::lemma_thread_key_not_reply;
use crate::keys::spec_reply_key;
use crate::keys::spec_reply_prefix;
use crate::keys::spec_thread_key;
use crate::records::thread_fits;
use crate::records::lemma_thread_round_trip;
use crate::records::wf_media;
use crate::records::ReplyView;
use crate::records::ThreadView;
use crate::records::spec_decode_reply;
use crate::records::spec_decode_thread;
use crate::records::lemma_reply_round_trip;
use crate::repo::created_thread_ok;
use crate::repo::decodable_reply_keys;
use crate::repo::stored_reply;
use crate::repo::replied_ok;
use crate::repo::reply_count;
use crate::repo::reply_listing_ok;
use crate::repo::reply_listing_keys_ok;
use crate::repo::thread_listing_ok;
use crate::repo::thread_listing_keys_ok;
use crate::repo::decodable_thread_keys;
use crate::store::lemma_ascending_unique;
use crate::repo::spec_get_thread;
use crate::store::empty_store_map;
use crate::store::has_prefix;
use crate::store::prefixed_keys;
use crate::records::lemma_decoded_thread_wf;
use vstd::prelude::*;

verus! {

/// A freshly created thread is retrievable under its identifier with the
/// very fields that were stored.
pub proof fn lemma_created_thread_retrievable(
    old_m: Map<Seq<u8>, Seq<u8>>,
    new_m: Map<Seq<u8>, Seq<u8>>,
    title: Seq<char>,
    message: Seq<char>,
    media: Option<crate::repo::MediaRecord>,
    t: ThreadView,
)
    requires
        created_thread_ok(old_m, new_m, title, message, media, t),
    ensures
        t.id >= 1,
        spec_get_thread(new_m, t.id) == Some(t),
{
    lemma_thread_round_trip(t);
}

/// The replies stored for `parent` carry exactly the identifiers 1
/// through `n`: no other key sits under the parent's prefix, each of the
/// `n` keys is present, and the record under key `i` decodes to a reply
/// whose identifier is `i`.
pub open spec fn replies_exactly(m: Map<Seq<u8>, Seq<u8>>, parent: u64, n: u64) -> bool {
    &&& forall|k: Seq<u8>|
        #![trigger m.dom().contains(k)]
        m.dom().contains(k) && has_prefix(k, spec_reply_prefix(parent)) ==> exists|i: u64|
            1 <= i <= n && k == spec_reply_key(parent, i)
    &&& forall|i: u64| 1 <= i <= n ==> m.dom().contains(#[trigger] spec_reply_key(parent, i))
    &&& forall|i: u64|
        1 <= i <= n ==> (#[trigger] spec_decode_reply(m[spec_reply_key(parent, i)])) is Some
            && spec_decode_reply(m[spec_reply_key(parent, i)])->0.id == i
}

/// The set of reply keys of `parent` for identifiers 1 through `n`.
pub open spec fn reply_key_range(parent: u64, n: u64) -> Set<Seq<u8>> {
    Set::new(
        |k: Seq<u8>| exists|i: u64| 1 <= i <= n && k == #[trigger] spec_reply_key(parent, i),
    )
}

/// Distinct identifiers give distinct keys, so the range of `n` reply
/// keys has exactly `n` members.
pub proof fn lemma_reply_key_range_len(parent: u64, n: u64)
    ensures
        reply_key_range(parent, n).finite(),
        reply_key_range(parent, n).len() == n,
    decreases n,
{
    if n == 0 {
        assert(reply_key_range(parent, 0) =~= Set::<Seq<u8>>::empty());
    } else {
        let prev = (n - 1) as u64;
        lemma_reply_key_range_len(parent, prev);
        assert forall|k: Seq<u8>| reply_key_range(parent, n).contains(k) implies reply_key_range(
            parent,
            prev,
        ).insert(spec_reply_key(parent, n)).contains(k) by {
            let i = choose|i: u64| 1 <= i <= n && k == spec_reply_key(parent, i);
            if i <= prev {
                assert(reply_key_range(parent, prev).contains(k));
            }
        }
        assert(reply_key_range(parent, n) =~= reply_key_range(parent, prev).insert(
            spec_reply_key(parent, n),
        ));
        if reply_key_range(parent, prev).contains(spec_reply_key(parent, n)) {
            let i = choose|i: u64| 1 <= i <= prev && spec_reply_key(parent, n) == spec_reply_key(
                parent,
                i,
            );
            lemma_reply_key_injective(parent, n, parent, i);
        }
    }
}

/// When the stored reply identifiers of `parent` are exactly 1 through
/// `n`, the reply count is `n`, so the next reply takes `n + 1`.
pub proof fn lemma_replies_count(m: Map<Seq<u8>, Seq<u8>>, parent: u64, n: u64)
    requires
        replies_exactly(m, parent, n),
    ensures
        reply_count(m, parent) == n,
{
    assert forall|k: Seq<u8>| prefixed_keys(m, spec_reply_prefix(parent)).contains(
        k,
    ) implies reply_key_range(parent, n).contains(k) by {
        let i = choose|i: u64| 1 <= i <= n && k == spec_reply_key(parent, i);
        assert(reply_key_range(parent, n).contains(spec_reply_key(parent, i)));
    }
    assert forall|k: Seq<u8>| reply_key_range(parent, n).contains(k) implies prefixed_keys(
        m,
        spec_reply_prefix(parent),
    ).contains(k) by {
        let i = choose|i: u64| 1 <= i <= n && k == spec_reply_key(parent, i);
        assert(m.dom().contains(spec_reply_key(parent, i)));
        lemma_reply_key_prefixed(parent, i);
    }
    assert(prefixed_keys(m, spec_reply_prefix(parent)) =~= reply_key_range(parent, n));
    lemma_reply_key_range_len(parent, n);
}

/// An empty store holds no reply for any thread.
pub proof fn lemma_empty_store_no_replies(parent: u64)
    ensures
        replies_exactly(empty_store_map(), parent, 0),
{
}

/// Creating a thread stores no reply: a fresh thread starts with none,
/// whatever parent is asked about.
pub proof fn lemma_created_thread_no_new_replies(
    old_m: Map<Seq<u8>, Seq<u8>>,
    new_m: Map<Seq<u8>, Seq<u8>>,
    title: Seq<char>,
    message: Seq<char>,
    media: Option<crate::repo::MediaRecord>,
    t: ThreadView,
    parent: u64,
    n: u64,
)
    requires
        created_thread_ok(old_m, new_m, title, message, media, t),
        replies_exactly(old_m, parent, n),
    ensures
        replies_exactly(new_m, parent, n),
{
    lemma_thread_key_not_reply(t.id, parent);
    assert forall|i: u64| 1 <= i <= n implies (#[trigger] spec_decode_reply(
        new_m[spec_reply_key(parent, i)],
    )) is Some && spec_decode_reply(new_m[spec_reply_key(parent, i)])->0.id == i by {
        lemma_reply_key_prefixed(parent, i);
        assert(spec_decode_reply(old_m[spec_reply_key(parent, i)]) is Some);
        assert(new_m[spec_reply_key(parent, i)] == old_m[spec_reply_key(parent, i)]);
    }
}

/// A listing of a thread that has no replies is empty.
pub proof fn lemma_no_replies_lists_empty(
    m: Map<Seq<u8>, Seq<u8>>,
    parent: u64,
    rs: Seq<ReplyView>,
)
    requires
        reply_listing_ok(m, parent, rs),
        replies_exactly(m, parent, 0),
    ensures
        rs.len() == 0,
{
    if rs.len() > 0 {
        assert(stored_reply(m, parent, rs[0]));
        let k = choose|k: Seq<u8>|
            m.dom().contains(k) && has_prefix(k, spec_reply_prefix(parent))
                && spec_decode_reply(m[k]) == Some(rs[0]);
        assert(m.dom().contains(k));
    }
}

/// Each reply takes the next identifier in turn: after the reply that
/// follows identifiers 1 through `n`, they are exactly 1 through `n + 1`.
pub proof fn lemma_reply_ids_step(
    old_m: Map<Seq<u8>, Seq<u8>>,
    new_m: Map<Seq<u8>, Seq<u8>>,
    parent: u64,
    message: Seq<char>,
    now: u64,
    rep: ReplyView,
    n: u64,
)
    requires
        replied_ok(old_m, new_m, parent, message, now, rep),
        replies_exactly(old_m, parent, n),
        n < u64::MAX,
    ensures
        rep.id == n + 1,
        replies_exactly(new_m, parent, (n + 1) as u64),
{
    lemma_replies_count(old_m, parent, n);
    assert(rep.id == n + 1);
    lemma_thread_key_not_reply(parent, parent);
    lemma_reply_key_prefixed(parent, rep.id);
    assert forall|k: Seq<u8>|
        new_m.dom().contains(k) && has_prefix(k, spec_reply_prefix(parent)) implies exists|i: u64|
        1 <= i <= n + 1 && k == spec_reply_key(parent, i) by {
        if k == spec_thread_key(parent) {
            assert(false);
        } else if k == spec_reply_key(parent, rep.id) {
            assert(1 <= rep.id <= n + 1 && k == spec_reply_key(parent, rep.id));
        } else {
            assert(old_m.dom().contains(k));
            let i = choose|i: u64| 1 <= i <= n && k == spec_reply_key(parent, i);
            assert(1 <= i <= n + 1 && k == spec_reply_key(parent, i));
        }
    }
    assert forall|i: u64| 1 <= i <= n + 1 implies new_m.dom().contains(
        #[trigger] spec_reply_key(parent, i),
    ) by {
        if i <= n {
            assert(old_m.dom().contains(spec_reply_key(parent, i)));
            if spec_reply_key(parent, i) == spec_thread_key(parent) {
                lemma_reply_key_prefixed(parent, i);
                assert(false);
            }
        }
    }
    assert forall|i: u64| 1 <= i <= n + 1 implies (#[trigger] spec_decode_reply(
        new_m[spec_reply_key(parent, i)],
    )) is Some && spec_decode_reply(new_m[spec_reply_key(parent, i)])->0.id == i by {
        lemma_reply_key_prefixed(parent, i);
        if spec_reply_key(parent, i) == spec_thread_key(parent) {
            assert(false);
        }
        if i <= n {
            assert(spec_decode_reply(old_m[spec_reply_key(parent, i)]) is Some);
            if spec_reply_key(parent, i) == spec_reply_key(parent, rep.id) {
                lemma_reply_key_injective(parent, i, parent, rep.id);
            }
            assert(new_m[spec_reply_key(parent, i)] == old_m[spec_reply_key(parent, i)]);
        } else {
            assert(i == rep.id);
            lemma_reply_round_trip(rep);
            assert(new_m[spec_reply_key(parent, i)] == crate::records::spec_encode_reply(rep));
        }
    }
}

/// After the replies 1 through `n`, a listing of `parent` holds exactly
/// `n` entries, every listed reply carries an identifier between 1 and
/// `n`, and each of those identifiers is listed.
pub proof fn lemma_replies_listing_complete(
    m: Map<Seq<u8>, Seq<u8>>,
    parent: u64,
    n: u64,
    rs: Seq<ReplyView>,
)
    requires
        replies_exactly(m, parent, n),
        reply_listing_ok(m, parent, rs),
    ensures
        rs.len() == n,
        forall|q: int| 0 <= q < rs.len() ==> 1 <= #[trigger] rs[q].id <= n,
        forall|i: u64|
            #![trigger spec_reply_key(parent, i)]
            1 <= i <= n ==> exists|q: int|
                0 <= q < rs.len() && (#[trigger] rs[q]) == spec_decode_reply(
                    m[spec_reply_key(parent, i)],
                )->0 && rs[q].id == i,
{
    assert forall|k: Seq<u8>| decodable_reply_keys(m, parent).contains(k) implies reply_key_range(
        parent,
        n,
    ).contains(k) by {
        assert(m.dom().contains(k) && has_prefix(k, spec_reply_prefix(parent)));
        let i = choose|i: u64| 1 <= i <= n && k == spec_reply_key(parent, i);
        assert(reply_key_range(parent, n).contains(spec_reply_key(parent, i)));
    }
    assert forall|k: Seq<u8>| reply_key_range(parent, n).contains(k) implies decodable_reply_keys(
        m,
        parent,
    ).contains(k) by {
        let i = choose|i: u64| 1 <= i <= n && k == spec_reply_key(parent, i);
        assert(m.dom().contains(spec_reply_key(parent, i)));
        lemma_reply_key_prefixed(parent, i);
        assert(spec_decode_reply(m[spec_reply_key(parent, i)]) is Some);
    }
    assert(decodable_reply_keys(m, parent) =~= reply_key_range(parent, n));
    lemma_reply_key_range_len(parent, n);
    assert forall|q: int| 0 <= q < rs.len() implies 1 <= #[trigger] rs[q].id <= n by {
        assert(stored_reply(m, parent, rs[q]));
        let k = choose|k: Seq<u8>|
            m.dom().contains(k) && has_prefix(k, spec_reply_prefix(parent)) && spec_decode_reply(
                m[k],
            ) == Some(rs[q]);
        let i = choose|i: u64| 1 <= i <= n && k == spec_reply_key(parent, i);
        assert(spec_decode_reply(m[spec_reply_key(parent, i)])->0.id == i);
    }
    assert forall|i: u64|
        #![trigger spec_reply_key(parent, i)]
        1 <= i <= n implies exists|q: int|
        0 <= q < rs.len() && (#[trigger] rs[q]) == spec_decode_reply(
            m[spec_reply_key(parent, i)],
        )->0 && rs[q].id == i by {
        let k = spec_reply_key(parent, i);
        lemma_reply_key_prefixed(parent, i);
        assert(m.dom().contains(k) && has_prefix(k, spec_reply_prefix(parent))
            && spec_decode_reply(m[k]) is Some);
        assert(rs.contains(spec_decode_reply(m[k])->0));
        let q = choose|q: int| 0 <= q < rs.len() && rs[q] == spec_decode_reply(m[k])->0;
        assert(rs[q].id == i);
    }
}

/// One snapshot, one listing: any two thread listings of the same store
/// contents hold the same threads in the same order, so the board index
/// is a function of the stored contents.
pub proof fn lemma_thread_listing_deterministic(
    m: Map<Seq<u8>, Seq<u8>>,
    ts1: Seq<ThreadView>,
    ts2: Seq<ThreadView>,
)
    requires
        thread_listing_ok(m, ts1),
        thread_listing_ok(m, ts2),
    ensures
        ts1 == ts2,
{
    let ks1 = choose|ks: Seq<Seq<u8>>| thread_listing_keys_ok(m, ks, ts1);
    let ks2 = choose|ks: Seq<Seq<u8>>| thread_listing_keys_ok(m, ks, ts2);
    assert(ks1.to_set() =~= ks2.to_set()) by {
        assert forall|x: Seq<u8>| ks1.to_set().contains(x) implies ks2.to_set().contains(x) by {
            let q = choose|q: int| 0 <= q < ks1.len() && ks1[q] == x;
            assert(decodable_thread_keys(m).contains(x));
            assert(ks2.contains(x));
        }
        assert forall|x: Seq<u8>| ks2.to_set().contains(x) implies ks1.to_set().contains(x) by {
            let q = choose|q: int| 0 <= q < ks2.len() && ks2[q] == x;
            assert(decodable_thread_keys(m).contains(x));
            assert(ks1.contains(x));
        }
    }
    lemma_ascending_unique(ks1, ks2);
    assert forall|q: int| 0 <= q < ts1.len() implies ts1[q] == ts2[q] by {
        assert(spec_decode_thread(m[ks1[q]]) == Some(ts1[q]));
        assert(spec_decode_thread(m[ks2[q]]) == Some(ts2[q]));
    }
    assert(ts1 =~= ts2);
}

/// Likewise for the replies of one parent.
pub proof fn lemma_reply_listing_deterministic(
    m: Map<Seq<u8>, Seq<u8>>,
    parent: u64,
    rs1: Seq<ReplyView>,
    rs2: Seq<ReplyView>,
)
    requires
        reply_listing_ok(m, parent, rs1),
        reply_listing_ok(m, parent, rs2),
    ensures
        rs1 == rs2,
{
    let ks1 = choose|ks: Seq<Seq<u8>>| reply_listing_keys_ok(m, parent, ks, rs1);
    let ks2 = choose|ks: Seq<Seq<u8>>| reply_listing_keys_ok(m, parent, ks, rs2);
    assert(ks1.to_set() =~= ks2.to_set()) by {
        assert forall|x: Seq<u8>| ks1.to_set().contains(x) implies ks2.to_set().contains(x) by {
            let q = choose|q: int| 0 <= q < ks1.len() && ks1[q] == x;
            assert(decodable_reply_keys(m, parent).contains(x));
            assert(ks2.contains(x));
        }
        assert forall|x: Seq<u8>| ks2.to_set().contains(x) implies ks1.to_set().contains(x) by {
            let q = choose|q: int| 0 <= q < ks2.len() && ks2[q] == x;
            assert(decodable_reply_keys(m, parent).contains(x));
            assert(ks1.contains(x));
        }
    }
    lemma_ascending_unique(ks1, ks2);
    assert forall|q: int| 0 <= q < rs1.len() implies rs1[q] == rs2[q] by {
        assert(spec_decode_reply(m[ks1[q]]) == Some(rs1[q]));
        assert(spec_decode_reply(m[ks2[q]]) == Some(rs2[q]));
    }
    assert(rs1 =~= rs2);
}

/// A reply touches its parent's freshness alone: the parent's record now
/// carries the new stamp, its other fields read as before, and every
/// other thread reads exactly as before.
pub proof fn lemma_reply_touches_only_parent(
    old_m: Map<Seq<u8>, Seq<u8>>,
    new_m: Map<Seq<u8>, Seq<u8>>,
    parent: u64,
    message: Seq<char>,
    now: u64,
    rep: ReplyView,
)
    requires
        replied_ok(old_m, new_m, parent, message, now, rep),
    ensures
        spec_get_thread(new_m, parent) is Some,
        spec_get_thread(new_m, parent)->0 == (ThreadView {
            last_updated: now,
            ..spec_get_thread(old_m, parent)->0
        }),
        spec_get_thread(old_m, parent)->0.last_updated <= now ==> spec_get_thread(
            new_m,
            parent,
        )->0.last_updated >= spec_get_thread(old_m, parent)->0.last_updated,
        forall|other: u64|
            other != parent ==> #[trigger] spec_get_thread(new_m, other) == spec_get_thread(
                old_m,
                other,
            ),
{
    let pv = spec_get_thread(old_m, parent)->0;
    let touched = ThreadView { last_updated: now, ..pv };
    lemma_decoded_thread_wf(old_m[spec_thread_key(parent)]);
    assert(wf_media(touched));
    assert(thread_fits(touched));
    lemma_thread_round_trip(touched);
    assert forall|other: u64| other != parent implies spec_get_thread(new_m, other)
        == spec_get_thread(old_m, other) by {
        if spec_thread_key(other) == spec_thread_key(parent) {
            lemma_thread_key_injective(other, parent);
        }
        if spec_thread_key(other) == spec_reply_key(parent, rep.id) {
            lemma_reply_key_prefixed(parent, rep.id);
            lemma_thread_key_not_reply(other, parent);
        }
    }
}

} // verus!
