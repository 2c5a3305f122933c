//! The storage key scheme. A thread record sits under `thread_<id>` and a
//! reply under `reply_<parent>_<id>`, ids written in decimal. The scan prefix
//! for one parent's replies carries the trailing delimiter, `reply_<parent>_`,
//! so that the replies of parent 12 are never confused with those of parent
//! 120.

use crate::store::has_prefix;
use crate::text::dec_bytes;
use crate::text::lemma_dec_bytes_injective;
use crate::text::lemma_dec_bytes_shape;
use crate::text::u64_dec_digits;
use vstd::prelude::*;

verus! {

/// The bytes of `thread_`, the prefix of every thread record key.
pub open spec fn thread_prefix() -> Seq<u8> {
    seq![116u8, 104u8, 114u8, 101u8, 97u8, 100u8, 95u8]
}

/// The bytes of `reply_`, the start of every reply record key.
pub open spec fn reply_marker() -> Seq<u8> {
    seq![114u8, 101u8, 112u8, 108u8, 121u8, 95u8]
}

/// The key of the thread record with identifier `id`.
pub open spec fn spec_thread_key(id: u64) -> Seq<u8> {
    thread_prefix() + dec_bytes(id as nat)
}

/// The scan prefix that matches exactly the reply keys of `parent`.
pub open spec fn spec_reply_prefix(parent: u64) -> Seq<u8> {
    reply_marker() + dec_bytes(parent as nat) + seq![95u8]
}

/// The key of reply `id` within thread `parent`.
pub open spec fn spec_reply_key(parent: u64, id: u64) -> Seq<u8> {
    spec_reply_prefix(parent) + dec_bytes(id as nat)
}

/// The key of the thread record with identifier `id`.
pub fn thread_key(id: u64) -> (r: Vec<u8>)
    ensures
        r@ == spec_thread_key(id),
{
    let mut out: Vec<u8> = vec![116u8, 104u8, 114u8, 101u8, 97u8, 100u8, 95u8];
    let mut digits = u64_dec_digits(id);
    out.append(&mut digits);
    proof {
        assert(out@ =~= spec_thread_key(id));
    }
    out
}

/// The bytes of `thread_`, the prefix of every thread record key.
pub fn thread_prefix_bytes() -> (r: Vec<u8>)
    ensures
        r@ == thread_prefix(),
{
    let out: Vec<u8> = vec![116u8, 104u8, 114u8, 101u8, 97u8, 100u8, 95u8];
    proof {
        assert(out@ =~= thread_prefix());
    }
    out
}

/// The scan prefix for the replies of `parent`, delimiter included.
pub fn reply_prefix(parent: u64) -> (r: Vec<u8>)
    ensures
        r@ == spec_reply_prefix(parent),
{
    let mut out: Vec<u8> = vec![114u8, 101u8, 112u8, 108u8, 121u8, 95u8];
    let mut digits = u64_dec_digits(parent);
    out.append(&mut digits);
    out.push(95u8);
    proof {
        assert(out@ =~= spec_reply_prefix(parent));
    }
    out
}

/// The key of reply `id` within thread `parent`.
pub fn reply_key(parent: u64, id: u64) -> (r: Vec<u8>)
    ensures
        r@ == spec_reply_key(parent, id),
{
    let mut out = reply_prefix(parent);
    let mut digits = u64_dec_digits(id);
    out.append(&mut digits);
    proof {
        assert(out@ =~= spec_reply_key(parent, id));
    }
    out
}

/// Every thread key starts with the thread prefix.
pub proof fn lemma_thread_key_prefixed(id: u64)
    ensures
        has_prefix(spec_thread_key(id), thread_prefix()),
{
    assert(spec_thread_key(id).take(7) =~= thread_prefix());
}

/// Every reply key starts with its parent's reply prefix.
pub proof fn lemma_reply_key_prefixed(parent: u64, id: u64)
    ensures
        has_prefix(spec_reply_key(parent, id), spec_reply_prefix(parent)),
{
    lemma_dec_bytes_shape(id as nat);
    let k = spec_reply_key(parent, id);
    let p = spec_reply_prefix(parent);
    assert(k.take(p.len() as int) =~= p);
}

/// Distinct identifiers give distinct thread keys.
pub proof fn lemma_thread_key_injective(a: u64, b: u64)
    requires
        spec_thread_key(a) == spec_thread_key(b),
    ensures
        a == b,
{
    let da = dec_bytes(a as nat);
    let db = dec_bytes(b as nat);
    assert(da =~= spec_thread_key(a).skip(7));
    assert(db =~= spec_thread_key(b).skip(7));
    lemma_dec_bytes_injective(a as nat, b as nat);
}

/// A thread key never starts with any reply scan prefix.
pub proof fn lemma_thread_key_not_reply(id: u64, parent: u64)
    ensures
        !has_prefix(spec_thread_key(id), spec_reply_prefix(parent)),
{
    let k = spec_thread_key(id);
    let p = spec_reply_prefix(parent);
    if has_prefix(k, p) {
        assert(k.take(p.len() as int)[0] == k[0]);
        assert(k[0] == 116u8);
        assert(p[0] == 114u8);
    }
}

/// A reply key never starts with the thread prefix.
pub proof fn lemma_reply_key_not_thread(parent: u64, id: u64)
    ensures
        !has_prefix(spec_reply_key(parent, id), thread_prefix()),
{
    let k = spec_reply_key(parent, id);
    if has_prefix(k, thread_prefix()) {
        assert(k.take(7)[0] == k[0]);
        assert(k[0] == 114u8);
        assert(thread_prefix()[0] == 116u8);
    }
}

/// A reply key matches the scan prefix of one parent alone: the trailing
/// delimiter makes the decimal parent id unambiguous.
pub proof fn lemma_reply_prefix_decides(p1: u64, p2: u64, id: u64)
    ensures
        has_prefix(spec_reply_key(p2, id), spec_reply_prefix(p1)) <==> p1 == p2,
{
    lemma_reply_key_prefixed(p2, id);
    let k = spec_reply_key(p2, id);
    let pre = spec_reply_prefix(p1);
    let d1 = dec_bytes(p1 as nat);
    let d2 = dec_bytes(p2 as nat);
    lemma_dec_bytes_shape(p1 as nat);
    lemma_dec_bytes_shape(p2 as nat);
    lemma_dec_bytes_shape(id as nat);
    if has_prefix(k, pre) {
        let a = d1.len() as int;
        let b = d2.len() as int;
        if a == b {
            assert(d1 =~= pre.subrange(6, 6 + a));
            assert(pre.subrange(6, 6 + a) =~= k.take(pre.len() as int).subrange(6, 6 + a));
            assert(d2 =~= k.subrange(6, 6 + b));
            assert(k.take(pre.len() as int).subrange(6, 6 + a) =~= k.subrange(6, 6 + a));
            lemma_dec_bytes_injective(p1 as nat, p2 as nat);
        } else if a < b {
            assert(pre[6 + a] == 95u8);
            assert(k.take(pre.len() as int)[6 + a] == k[6 + a]);
            assert(k[6 + a] == d2[a]);
            assert(48 <= d2[a] <= 57);
        } else {
            assert(pre[6 + b] == d1[b]);
            assert(48 <= d1[b] <= 57);
            assert(k.take(pre.len() as int)[6 + b] == k[6 + b]);
            assert(k[6 + b] == 95u8);
        }
    }
}

/// Distinct parent or reply identifiers give distinct reply keys.
pub proof fn lemma_reply_key_injective(p1: u64, i1: u64, p2: u64, i2: u64)
    requires
        spec_reply_key(p1, i1) == spec_reply_key(p2, i2),
    ensures
        p1 == p2 && i1 == i2,
{
    lemma_reply_key_prefixed(p1, i1);
    lemma_reply_key_prefixed(p2, i2);
    lemma_reply_prefix_decides(p1, p2, i2);
    let pre = spec_reply_prefix(p1);
    let k = spec_reply_key(p1, i1);
    assert(dec_bytes(i1 as nat) =~= k.skip(pre.len() as int));
    assert(dec_bytes(i2 as nat) =~= spec_reply_key(p2, i2).skip(
        spec_reply_prefix(p2).len() as int,
    ));
    lemma_dec_bytes_injective(i1 as nat, i2 as nat);
}

} // verus!
