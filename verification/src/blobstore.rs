//! The blob sharder: large opaque payloads stored as contiguous runs
//! of keys.
//!
//! A blob is cut into chunks of at most 50 KiB — safely under the
//! store's value size limit — and each chunk is stored under the blob
//! id followed by the chunk's big-endian index.  Reassembly scans the
//! id's key range in order and concatenates the values; no length
//! header is needed, because range iteration stops at the next key
//! family.

use vstd::prelude::*;

use crate::byteorder::{be_bytes, copy_bytes, copy_range, lemma_be_bytes_len,
    lemma_be_bytes_order, lemma_pow256_values, pow256, repeat_byte, u64_to_be};
use crate::kvs::{kv_views, spec_get, spec_range, Kvs};
use crate::rowid::RowId;

verus! {

/// The largest number of bytes one shard holds.
pub const SHARD_SIZE: usize = 50 * 1024;

/// A blob of bytes, stored sharded.
pub struct ShardedBlob(pub Vec<u8>);

/// The chunks a byte string is cut into: full shards, then what is
/// left.
pub open spec fn spec_shard(data: Seq<u8>) -> Seq<Seq<u8>>
    decreases data.len(),
{
    if data.len() == 0 {
        Seq::empty()
    } else if data.len() <= SHARD_SIZE {
        seq![data]
    } else {
        seq![data.take(SHARD_SIZE as int)] + spec_shard(data.skip(SHARD_SIZE as int))
    }
}

/// The concatenation of a list of chunks.
pub open spec fn spec_concat(chunks: Seq<Seq<u8>>) -> Seq<u8>
    decreases chunks.len(),
{
    if chunks.len() == 0 {
        Seq::empty()
    } else {
        chunks[0] + spec_concat(chunks.drop_first())
    }
}

/// Blob round trip: reassembling the shards of a blob yields the
/// blob.
pub proof fn lemma_shard_concat(data: Seq<u8>)
    ensures
        spec_concat(spec_shard(data)) == data,
    decreases data.len(),
{
    if data.len() == 0 {
        assert(spec_concat(spec_shard(data)) =~= data);
    } else if data.len() <= SHARD_SIZE {
        let c = spec_shard(data);
        assert(spec_concat(c) == c[0] + spec_concat(c.drop_first()));
        assert(c[0] == data);
        assert(c.drop_first() =~= Seq::<Seq<u8>>::empty());
        assert(spec_concat(c.drop_first()) == Seq::<u8>::empty());
        assert(spec_concat(c) =~= data);
    } else {
        let c = spec_shard(data);
        lemma_shard_concat(data.skip(SHARD_SIZE as int));
        assert(spec_concat(c) == c[0] + spec_concat(c.drop_first()));
        assert(c[0] == data.take(SHARD_SIZE as int));
        assert(c.drop_first() =~= spec_shard(data.skip(SHARD_SIZE as int)));
        assert(spec_concat(c) =~= data.take(SHARD_SIZE as int) + data.skip(SHARD_SIZE as int));
        assert(data.take(SHARD_SIZE as int) + data.skip(SHARD_SIZE as int) =~= data);
    }
}

/// Every shard is at most `SHARD_SIZE` bytes, and only the last one
/// is smaller.
pub proof fn lemma_shard_sizes(data: Seq<u8>)
    ensures
        forall|i: int|
            0 <= i < spec_shard(data).len() ==> #[trigger] spec_shard(data)[i].len() <= SHARD_SIZE,
        forall|i: int|
            0 <= i < spec_shard(data).len() - 1 ==> #[trigger] spec_shard(data)[i].len()
                == SHARD_SIZE,
    decreases data.len(),
{
    if data.len() > SHARD_SIZE {
        lemma_shard_sizes(data.skip(SHARD_SIZE as int));
        let c = spec_shard(data);
        let tail = spec_shard(data.skip(SHARD_SIZE as int));
        assert forall|i: int| 0 <= i < c.len() implies #[trigger] c[i].len() <= SHARD_SIZE by {
            if i > 0 {
                assert(c[i] == tail[i - 1]);
            }
        }
        assert forall|i: int| 0 <= i < c.len() - 1 implies #[trigger] c[i].len() == SHARD_SIZE by {
            if i > 0 {
                assert(c[i] == tail[i - 1]);
            }
        }
    }
}

/// The number of shards: none for an empty blob, else one per started
/// `SHARD_SIZE` run.
pub proof fn lemma_shard_count(data: Seq<u8>)
    ensures
        spec_shard(data).len() == (if data.len() == 0 {
            0int
        } else {
            ((data.len() - 1) as int) / (SHARD_SIZE as int) + 1
        }),
    decreases data.len(),
{
    if data.len() == 0 {
    } else if data.len() <= SHARD_SIZE {
        assert(((data.len() - 1) as int) / (SHARD_SIZE as int) == 0) by (nonlinear_arith)
            requires
                0 <= ((data.len() - 1) as int),
                ((data.len() - 1) as int) < SHARD_SIZE as int,
        ;
    } else {
        lemma_shard_count(data.skip(SHARD_SIZE as int));
        let n = data.len() as int;
        let s = SHARD_SIZE as int;
        assert((n - s - 1) / s + 1 == (n - 1) / s) by (nonlinear_arith)
            requires
                n > s > 0,
        ;
    }
}

/// The key of one shard: the blob id, then the chunk index in eight
/// big-endian bytes.
pub open spec fn blob_shard_key(id: Seq<u8>, i: int) -> Seq<u8> {
    id + be_bytes(i as nat, 8)
}

impl ShardedBlob {
    /// Cuts the blob into chunks of at most `SHARD_SIZE` bytes.
    #[verifier::loop_isolation(false)]
    pub fn shard(&self) -> (r: Vec<Vec<u8>>)
        ensures
            r@.map_values(|c: Vec<u8>| c@) == spec_shard(self.0@),
    {
        let data = &self.0;
        let len = data.len();
        let mut out: Vec<Vec<u8>> = Vec::new();
        let mut pos: usize = 0;
        proof {
            assert(self.0@.skip(0int) =~= self.0@);
            assert(out@.map_values(|c: Vec<u8>| c@) + spec_shard(self.0@.skip(0int))
                =~= spec_shard(self.0@));
        }
        while pos < len
            invariant
                pos <= len,
                len == self.0@.len(),
                out@.map_values(|c: Vec<u8>| c@) + spec_shard(self.0@.skip(pos as int))
                    == spec_shard(self.0@),
            decreases len - pos,
        {
            let end = if len - pos > SHARD_SIZE {
                pos + SHARD_SIZE
            } else {
                len
            };
            let chunk = copy_range(data, pos, end);
            proof {
                let rest = self.0@.skip(pos as int);
                assert(rest.len() == len - pos);
                if len - pos > SHARD_SIZE {
                    assert(chunk@ =~= rest.take(SHARD_SIZE as int));
                    assert(rest.skip(SHARD_SIZE as int) =~= self.0@.skip(pos + SHARD_SIZE));
                    assert(spec_shard(rest) == seq![chunk@] + spec_shard(
                        self.0@.skip(pos + SHARD_SIZE),
                    ));
                } else {
                    assert(chunk@ =~= rest);
                    assert(spec_shard(rest) == seq![rest]);
                    assert(self.0@.skip(end as int).len() == 0);
                    assert(spec_shard(self.0@.skip(end as int)) =~= Seq::<Seq<u8>>::empty());
                }
                assert((out@.push(chunk)).map_values(|c: Vec<u8>| c@) =~= out@.map_values(
                    |c: Vec<u8>| c@,
                ).push(chunk@));
                assert(out@.map_values(|c: Vec<u8>| c@).push(chunk@) + spec_shard(
                    self.0@.skip(end as int),
                ) =~= out@.map_values(|c: Vec<u8>| c@) + spec_shard(self.0@.skip(pos as int)));
            }
            out.push(chunk);
            pos = end;
        }
        proof {
            assert(self.0@.skip(pos as int).len() == 0);
            assert(spec_shard(self.0@.skip(pos as int)) =~= Seq::<Seq<u8>>::empty());
            assert(out@.map_values(|c: Vec<u8>| c@) =~= spec_shard(self.0@));
        }
        out
    }

    /// Reassembles a blob from its shards, in the order given.
    #[verifier::loop_isolation(false)]
    pub fn unshard(shards: Vec<&[u8]>) -> (r: ShardedBlob)
        ensures
            r.0@ == spec_concat(shards@.map_values(|s: &[u8]| s@)),
    {
        let mut buf: Vec<u8> = Vec::new();
        let mut i: usize = 0;
        let ghost views = shards@.map_values(|s: &[u8]| s@);
        proof {
            assert(spec_concat_prefix(views, 0int) =~= Seq::<u8>::empty());
        }
        while i < shards.len()
            invariant
                i <= shards@.len(),
                views == shards@.map_values(|s: &[u8]| s@),
                buf@ == spec_concat_prefix(views, i as int),
            decreases shards@.len() - i,
        {
            let s = shards[i];
            let mut j: usize = 0;
            while j < s.len()
                invariant
                    j <= s@.len(),
                    s@ == views[i as int],
                    i < views.len(),
                    buf@ == spec_concat_prefix(views, i as int) + s@.take(j as int),
                decreases s@.len() - j,
            {
                let b = *vstd::slice::slice_index_get(s, j);
                buf.push(b);
                proof {
                    assert(s@.take(j + 1) =~= s@.take(j as int).push(s@[j as int]));
                    assert(buf@ =~= spec_concat_prefix(views, i as int) + s@.take(j + 1));
                }
                j += 1;
            }
            proof {
                assert(s@.take(s@.len() as int) =~= s@);
                lemma_concat_prefix_snoc(views, i as int);
                assert(buf@ =~= spec_concat_prefix(views, i + 1));
            }
            i += 1;
        }
        proof {
            lemma_concat_prefix_all(views);
        }
        ShardedBlob(buf)
    }

    /// The entries one `store` writes: chunk `i` of the blob under the
    /// key `id ++ i`.
    #[verifier::loop_isolation(false)]
    pub fn store_ops(&self, key: &RowId) -> (r: Vec<(Vec<u8>, Vec<u8>)>)
        ensures
            r@.len() == spec_shard(self.0@).len(),
            forall|i: int|
                0 <= i < r@.len() ==> (#[trigger] r@[i]).0@ == blob_shard_key(key@, i)
                    && r@[i].1@ == spec_shard(self.0@)[i],
    {
        let chunks = self.shard();
        let mut out: Vec<(Vec<u8>, Vec<u8>)> = Vec::new();
        let mut i: usize = 0;
        let n_chunks = chunks.len();
        proof {
            lemma_pow256_values();
            assert(chunks@.len() == chunks@.map_values(|c: Vec<u8>| c@).len());
            assert(n_chunks <= usize::MAX);
            assert(chunks@.len() < pow256(8));
        }
        while i < chunks.len()
            invariant
                i <= chunks@.len(),
                chunks@.map_values(|c: Vec<u8>| c@) == spec_shard(self.0@),
                chunks@.len() == spec_shard(self.0@).len(),
                chunks@.len() < pow256(8),
                out@.len() == i,
                forall|t: int|
                    0 <= t < i ==> (#[trigger] out@[t]).0@ == blob_shard_key(key@, t)
                        && out@[t].1@ == spec_shard(self.0@)[t],
            decreases chunks@.len() - i,
        {
            let mut k = copy_bytes(key.as_bytes());
            let mut suffix = u64_to_be(i as u64, 8);
            k.append(&mut suffix);
            proof {
                assert(k@ =~= blob_shard_key(key@, i as int));
            }
            out.push((k, copy_bytes(&chunks[i])));
            i += 1;
        }
        out
    }

    /// Stores the blob's shards in the store.
    #[verifier::loop_isolation(false)]
    pub fn store(&self, kvs: &mut Kvs, key: &RowId)
        requires
            old(kvs).wf(),
        ensures
            final(kvs).wf(),
            forall|i: int|
                0 <= i < spec_shard(self.0@).len() ==> spec_get(
                    final(kvs)@,
                    #[trigger] blob_shard_key(key@, i),
                ) == Some(spec_shard(self.0@)[i]),
            forall|k: Seq<u8>|
                !(exists|i: int|
                    0 <= i < spec_shard(self.0@).len() && k == #[trigger] blob_shard_key(
                        key@,
                        i,
                    )) ==> #[trigger] spec_get(final(kvs)@, k) == spec_get(old(kvs)@, k),
    {
        let ghost es0 = old(kvs)@;
        let ops = self.store_ops(key);
        let n_ops = ops.len();
        proof {
            lemma_pow256_values();
            assert(n_ops <= usize::MAX);
            assert(ops@.len() < pow256(8));
            assert forall|a: int, b: int| 0 <= a < b < ops@.len() implies (
            #[trigger] ops@[a]).0@ != (#[trigger] ops@[b]).0@ by {
                lemma_blob_shard_key_injective(key@, a, b);
            }
        }
        let mut i: usize = 0;
        while i < ops.len()
            invariant
                i <= ops@.len(),
                kvs.wf(),
                ops@.len() == spec_shard(self.0@).len(),
                ops@.len() < pow256(8),
                forall|t: int|
                    0 <= t < ops@.len() ==> (#[trigger] ops@[t]).0@ == blob_shard_key(key@, t)
                        && ops@[t].1@ == spec_shard(self.0@)[t],
                forall|a: int, b: int| 0 <= a < b < ops@.len() ==> (#[trigger] ops@[a]).0@ != (
                #[trigger] ops@[b]).0@,
                forall|t: int|
                    0 <= t < i ==> spec_get(kvs@, (#[trigger] ops@[t]).0@) == Some(ops@[t].1@),
                forall|k: Seq<u8>|
                    !(exists|t: int| 0 <= t < i && (#[trigger] ops@[t]).0@ == k)
                        ==> #[trigger] spec_get(kvs@, k) == spec_get(es0, k),
            decreases ops@.len() - i,
        {
            let ghost pre = kvs@;
            let kb = copy_bytes(&ops[i].0);
            let vb = copy_bytes(&ops[i].1);
            kvs.set(kb, vb);
            proof {
                assert forall|t: int|
                    0 <= t < i + 1 implies spec_get(kvs@, (#[trigger] ops@[t]).0@) == Some(
                    ops@[t].1@,
                ) by {
                    crate::kvs::lemma_set_get(pre, ops@[i as int].0@, ops@[i as int].1@, ops@[t].0@);
                }
                assert forall|k: Seq<u8>|
                    !(exists|t: int| 0 <= t < i + 1 && (#[trigger] ops@[t]).0@ == k)
                        implies #[trigger] spec_get(kvs@, k) == spec_get(es0, k) by {
                    crate::kvs::lemma_set_get(pre, ops@[i as int].0@, ops@[i as int].1@, k);
                }
            }
            i += 1;
        }
        proof {
            assert forall|i: int|
                0 <= i < spec_shard(self.0@).len() implies spec_get(
                kvs@,
                #[trigger] blob_shard_key(key@, i),
            ) == Some(spec_shard(self.0@)[i]) by {
                assert(ops@[i].0@ == blob_shard_key(key@, i));
            }
        }
    }

    /// Loads a blob back: scans the id's key range in order and
    /// concatenates the values found.
    #[verifier::loop_isolation(false)]
    pub fn load(kvs: &Kvs, key: &RowId) -> (r: ShardedBlob)
        ensures
            ({
                let lo = key@ + repeat_byte(0, 8);
                let hi = key@ + repeat_byte(0xff, 8);
                let sel = spec_range(kvs@, lo, hi);
                let m = if 1000int <= sel.len() {
                    1000int
                } else {
                    sel.len() as int
                };
                r.0@ == spec_concat(sel.take(m).map_values(|p: (Seq<u8>, Seq<u8>)| p.1))
            }),
    {
        let mut start = copy_bytes(key.as_bytes());
        let mut zeros = u64_to_be(0, 8);
        start.append(&mut zeros);
        let mut end = copy_bytes(key.as_bytes());
        let mut highs: Vec<u8> = u64_to_be(u64::MAX, 8);
        end.append(&mut highs);
        proof {
            lemma_pow256_values();
            lemma_be_bytes_len(0, 8);
            lemma_be_bytes_len(u64::MAX as nat, 8);
            assert(be_bytes(0, 8) =~= repeat_byte(0, 8)) by {
                lemma_be_zero_is_zero_bytes();
            }
            assert(be_bytes(u64::MAX as nat, 8) =~= repeat_byte(0xff, 8)) by {
                lemma_be_max_is_ff_bytes();
            }
            assert(start@ =~= key@ + repeat_byte(0, 8));
            assert(end@ =~= key@ + repeat_byte(0xff, 8));
        }
        let entries = kvs.get_range(&start, &end, 1000, false);
        let ghost sel = spec_range(kvs@, start@, end@);
        let ghost m = if 1000int <= sel.len() {
            1000int
        } else {
            sel.len() as int
        };
        let ghost vals = sel.take(m).map_values(|p: (Seq<u8>, Seq<u8>)| p.1);
        let mut buf: Vec<u8> = Vec::new();
        let mut i: usize = 0;
        proof {
            assert(kv_views(entries@) == sel.take(m));
            assert(vals.len() == entries@.len());
            assert(spec_concat_prefix(vals, 0int) =~= Seq::<u8>::empty());
        }
        while i < entries.len()
            invariant
                i <= entries@.len(),
                kv_views(entries@) == sel.take(m),
                vals == sel.take(m).map_values(|p: (Seq<u8>, Seq<u8>)| p.1),
                vals.len() == entries@.len(),
                buf@ == spec_concat_prefix(vals, i as int),
            decreases entries@.len() - i,
        {
            let v = &entries[i].1;
            let mut j: usize = 0;
            proof {
                assert(vals[i as int] == entries@[i as int].1@);
            }
            while j < v.len()
                invariant
                    j <= v@.len(),
                    v@ == vals[i as int],
                    i < vals.len(),
                    buf@ == spec_concat_prefix(vals, i as int) + v@.take(j as int),
                decreases v@.len() - j,
            {
                buf.push(v[j]);
                proof {
                    assert(v@.take(j + 1) =~= v@.take(j as int).push(v@[j as int]));
                    assert(buf@ =~= spec_concat_prefix(vals, i as int) + v@.take(j + 1));
                }
                j += 1;
            }
            proof {
                assert(v@.take(v@.len() as int) =~= v@);
                lemma_concat_prefix_snoc(vals, i as int);
                assert(buf@ =~= spec_concat_prefix(vals, i + 1));
            }
            i += 1;
        }
        proof {
            lemma_concat_prefix_all(vals);
        }
        ShardedBlob(buf)
    }
}

/// Blob round trip through the store: once a blob's shards stand in
/// a key range nothing else occupies, the scan that `load` performs
/// yields exactly the shards in order, and what it concatenates is
/// the blob.
pub proof fn lemma_store_then_load(
    es0: Seq<(Seq<u8>, Seq<u8>)>,
    es1: Seq<(Seq<u8>, Seq<u8>)>,
    data: Seq<u8>,
    id: Seq<u8>,
)
    requires
        crate::kvs::sorted(es1),
        spec_shard(data).len() <= 1000,
        forall|i: int|
            0 <= i < spec_shard(data).len() ==> spec_get(es1, #[trigger] blob_shard_key(id, i))
                == Some(spec_shard(data)[i]),
        forall|k: Seq<u8>|
            !(exists|i: int|
                0 <= i < spec_shard(data).len() && k == #[trigger] blob_shard_key(id, i))
                ==> #[trigger] spec_get(es1, k) == spec_get(es0, k),
        forall|k: Seq<u8>|
            crate::byteorder::lex_leq(id + repeat_byte(0, 8), k) && crate::byteorder::lex_leq(
                k,
                id + repeat_byte(0xff, 8),
            ) ==> #[trigger] spec_get(es0, k) is None,
    ensures
        ({
            let lo = id + repeat_byte(0, 8);
            let hi = id + repeat_byte(0xff, 8);
            let sel = spec_range(es1, lo, hi);
            let m = if 1000int <= sel.len() {
                1000int
            } else {
                sel.len() as int
            };
            spec_concat(sel.take(m).map_values(|p: (Seq<u8>, Seq<u8>)| p.1)) == data
        }),
{
    let n = spec_shard(data).len() as int;
    let lo = id + repeat_byte(0, 8);
    let hi = id + repeat_byte(0xff, 8);
    let sel = spec_range(es1, lo, hi);
    let xs = Seq::new(n as nat, |i: int| (blob_shard_key(id, i), spec_shard(data)[i]));
    lemma_pow256_values();
    assert forall|i: int, j: int| 0 <= i < j < xs.len() implies crate::byteorder::lex_less(
        (#[trigger] xs[i]).0,
        (#[trigger] xs[j]).0,
    ) by {
        lemma_be_bytes_order(i as nat, j as nat, 8);
        crate::byteorder::lemma_lex_common_prefix(
            id,
            be_bytes(i as nat, 8),
            be_bytes(j as nat, 8),
        );
    }
    assert forall|p: (Seq<u8>, Seq<u8>)| sel.contains(p) <==> xs.contains(p) by {
        if sel.contains(p) {
            let idx = choose|idx: int| 0 <= idx < sel.len() && sel[idx] == p;
            crate::kvs::lemma_range_sound(es1, lo, hi, idx);
            if !(exists|i: int| 0 <= i < n && p.0 == #[trigger] blob_shard_key(id, i)) {
                assert(spec_get(es1, p.0) == spec_get(es0, p.0));
                assert(false);
            }
            let i = choose|i: int| 0 <= i < n && p.0 == #[trigger] blob_shard_key(id, i);
            assert(p.1 == spec_shard(data)[i]);
            assert(xs[i] == p);
        }
        if xs.contains(p) {
            let i = choose|i: int| 0 <= i < xs.len() && xs[i] == p;
            lemma_be_bytes_len(i as nat, 8);
            crate::byteorder::lemma_lex_zero_low(be_bytes(i as nat, 8));
            crate::byteorder::lemma_lex_ff_high(be_bytes(i as nat, 8));
            assert(repeat_byte(0, be_bytes(i as nat, 8).len()) == repeat_byte(0, 8));
            assert(repeat_byte(0xff, be_bytes(i as nat, 8).len()) == repeat_byte(0xff, 8));
            if repeat_byte(0, 8) == be_bytes(i as nat, 8) {
                assert(lo == p.0);
            } else {
                crate::byteorder::lemma_lex_common_prefix(
                    id,
                    repeat_byte(0, 8),
                    be_bytes(i as nat, 8),
                );
            }
            if be_bytes(i as nat, 8) == repeat_byte(0xff, 8) {
                assert(p.0 == hi);
            } else {
                crate::byteorder::lemma_lex_common_prefix(
                    id,
                    be_bytes(i as nat, 8),
                    repeat_byte(0xff, 8),
                );
            }
            crate::kvs::lemma_range_contains(es1, lo, hi, p.0, p.1);
        }
    }
    crate::kvs::lemma_range_sorted(es1, lo, hi);
    crate::kvs::lemma_sorted_members_unique(sel, xs);
    let m = if 1000int <= sel.len() {
        1000int
    } else {
        sel.len() as int
    };
    assert(sel.take(m) =~= xs);
    assert(sel.take(m).map_values(|p: (Seq<u8>, Seq<u8>)| p.1) =~= spec_shard(data));
    lemma_shard_concat(data);
}

/// The concatenation of the first `n` chunks.
pub open spec fn spec_concat_prefix(chunks: Seq<Seq<u8>>, n: int) -> Seq<u8>
    decreases n,
{
    if n <= 0 {
        Seq::empty()
    } else {
        spec_concat_prefix(chunks, n - 1) + chunks[n - 1]
    }
}

pub proof fn lemma_concat_prefix_snoc(chunks: Seq<Seq<u8>>, i: int)
    requires
        0 <= i,
    ensures
        spec_concat_prefix(chunks, i + 1) == spec_concat_prefix(chunks, i) + chunks[i],
{
}

/// The prefix concatenation of all chunks is the concatenation.
pub proof fn lemma_concat_prefix_all(chunks: Seq<Seq<u8>>)
    ensures
        spec_concat_prefix(chunks, chunks.len() as int) == spec_concat(chunks),
    decreases chunks.len(),
{
    lemma_concat_prefix_front(chunks, chunks.len() as int);
    assert(chunks.take(chunks.len() as int) =~= chunks);
}

/// Peeling the prefix concatenation from the front.
proof fn lemma_concat_prefix_front(chunks: Seq<Seq<u8>>, n: int)
    requires
        0 <= n <= chunks.len(),
    ensures
        spec_concat_prefix(chunks, n) == spec_concat(chunks.take(n)),
    decreases n,
{
    if n == 0 {
        assert(chunks.take(0int) =~= Seq::<Seq<u8>>::empty());
    } else {
        lemma_concat_prefix_front(chunks, n - 1);
        lemma_concat_snoc(chunks.take(n - 1), chunks[n - 1]);
        assert(chunks.take(n) =~= chunks.take(n - 1).push(chunks[n - 1]));
    }
}

/// Concatenation distributes over appending one chunk.
proof fn lemma_concat_snoc(chunks: Seq<Seq<u8>>, c: Seq<u8>)
    ensures
        spec_concat(chunks.push(c)) == spec_concat(chunks) + c,
    decreases chunks.len(),
{
    let p = chunks.push(c);
    assert(p.len() == chunks.len() + 1);
    assert(spec_concat(p) == p[0] + spec_concat(p.drop_first()));
    if chunks.len() == 0 {
        assert(p[0] == c);
        assert(p.drop_first() =~= Seq::<Seq<u8>>::empty());
        assert(spec_concat(p.drop_first()) == Seq::<u8>::empty());
        assert(spec_concat(chunks) == Seq::<u8>::empty());
        assert(spec_concat(p) =~= spec_concat(chunks) + c);
    } else {
        assert(p[0] == chunks[0]);
        assert(p.drop_first() =~= chunks.drop_first().push(c));
        lemma_concat_snoc(chunks.drop_first(), c);
        assert(spec_concat(chunks) == chunks[0] + spec_concat(chunks.drop_first()));
        assert(spec_concat(p) =~= spec_concat(chunks) + c);
    }
}

/// The all-zero eight bytes encode zero.
proof fn lemma_be_zero_is_zero_bytes()
    ensures
        be_bytes(0, 8) =~= repeat_byte(0, 8),
{
    reveal_with_fuel(be_bytes, 9);
    lemma_be_bytes_len(0, 8);
    assert forall|i: int| 0 <= i < 8 implies be_bytes(0, 8)[i] == 0u8 by {
        lemma_be_bytes_zero_at(8, i);
    }
}

/// Every byte of the encoding of zero is zero.
proof fn lemma_be_bytes_zero_at(n: nat, i: int)
    requires
        0 <= i < n,
    ensures
        be_bytes(0, n)[i] == 0u8,
    decreases n,
{
    lemma_be_bytes_len(0, (n - 1) as nat);
    if i < n - 1 {
        lemma_be_bytes_zero_at((n - 1) as nat, i);
    }
}

/// The encoding of the largest 64-bit value is eight `0xff` bytes.
proof fn lemma_be_max_is_ff_bytes()
    ensures
        be_bytes(u64::MAX as nat, 8) =~= repeat_byte(0xff, 8),
{
    lemma_pow256_values();
    lemma_be_bytes_len(u64::MAX as nat, 8);
    assert forall|i: int| 0 <= i < 8 implies be_bytes(u64::MAX as nat, 8)[i] == 0xffu8 by {
        lemma_be_bytes_ff_at(8, i);
        assert(u64::MAX as nat == (pow256(8) - 1) as nat);
    }
}

/// Every byte of the encoding of an all-ones value is `0xff`.
proof fn lemma_be_bytes_ff_at(n: nat, i: int)
    requires
        0 <= i < n,
        n <= 8,
    ensures
        be_bytes((pow256(n) - 1) as nat, n)[i] == 0xffu8,
    decreases n,
{
    lemma_pow256_values();
    let x = (pow256(n) - 1) as nat;
    crate::byteorder::lemma_pow256_positive((n - 1) as nat);
    assert(pow256(n) == 256 * pow256((n - 1) as nat));
    assert(x / 256 == pow256((n - 1) as nat) - 1 && x % 256 == 255) by (nonlinear_arith)
        requires
            x == 256 * pow256((n - 1) as nat) - 1,
            pow256((n - 1) as nat) >= 1,
    ;
    lemma_be_bytes_len(x / 256, (n - 1) as nat);
    if i < n - 1 {
        lemma_be_bytes_ff_at((n - 1) as nat, i);
    }
}

/// Shard keys of one blob are pairwise distinct.
proof fn lemma_blob_shard_key_injective(id: Seq<u8>, a: int, b: int)
    requires
        0 <= a < b < pow256(8),
    ensures
        blob_shard_key(id, a) != blob_shard_key(id, b),
{
    lemma_be_bytes_order(a as nat, b as nat, 8);
    crate::byteorder::lemma_lex_irreflexive(be_bytes(a as nat, 8));
    if blob_shard_key(id, a) == blob_shard_key(id, b) {
        lemma_be_bytes_len(a as nat, 8);
        lemma_be_bytes_len(b as nat, 8);
        assert(be_bytes(a as nat, 8) =~= blob_shard_key(id, a).subrange(
            id.len() as int,
            id.len() as int + 8,
        ));
        assert(be_bytes(b as nat, 8) =~= blob_shard_key(id, b).subrange(
            id.len() as int,
            id.len() as int + 8,
        ));
    }
}

} // verus!
