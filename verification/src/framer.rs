//! The payload framer: a payload as request units, and request units as a
//! payload.
//!
//! A payload is cut into chunks of at most 35 bytes. Each chunk is ciphered
//! on its own, from the first byte of the key, and written as one label. Up
//! to four labels, joined by `.`, make one request unit: the name that one
//! request carries. Reading goes the other way: every name is cut at its
//! dots, every label is decoded and deciphered, and the chunks are put
//! together in the order in which they came.

use vstd::prelude::*;
use vstd::slice::slice_subrange;
use vstd::utf8::encode_utf8;
use crate::cipher::{apply, apply_spec, apply_twice_restores, keystream_xor};
use crate::codec::{
    b32_decode, b32_encode, decode_inverts_encode, decode_spec, encode_spec, is_label, is_symbol,
    label_shape, PAD,
};
use crate::error::ChannelError;
use crate::text::{ascii_text, is_ascii_bytes, lemma_ascii_text};

verus! {

/// Bytes of payload in one chunk, at most.
pub const CHUNK_BYTES: usize = 35;

/// Labels in one request unit, at most.
pub const UNIT_LABELS: usize = 4;

/// The byte that stands between the labels of a request unit: `.`.
pub const SEPARATOR: u8 = 0x2e;

/// Chunks that a payload of `n` bytes is cut into.
pub open spec fn chunk_count(n: nat) -> nat {
    ((n + CHUNK_BYTES - 1) / (CHUNK_BYTES as int)) as nat
}

/// Chunk `i` of the payload: 35 bytes, or what is left of it.
pub open spec fn chunk(payload: Seq<u8>, i: int) -> Seq<u8> {
    payload.subrange(
        CHUNK_BYTES * i,
        if CHUNK_BYTES * i + CHUNK_BYTES <= payload.len() {
            CHUNK_BYTES * i + CHUNK_BYTES
        } else {
            payload.len() as int
        },
    )
}

/// The label of one chunk: ciphered from the first byte of the key, then
/// encoded.
pub open spec fn seal(chunk: Seq<u8>, key: Seq<u8>) -> Seq<u8> {
    encode_spec(keystream_xor(chunk, key))
}

/// The labels of a payload, one per chunk, in order.
pub open spec fn labels_of(payload: Seq<u8>, key: Seq<u8>) -> Seq<Seq<u8>> {
    Seq::new(chunk_count(payload.len()), |i: int| seal(chunk(payload, i), key))
}

/// Labels joined by the separator.
pub open spec fn join(labels: Seq<Seq<u8>>) -> Seq<u8>
    decreases labels.len(),
{
    if labels.len() == 0 {
        Seq::empty()
    } else if labels.len() == 1 {
        labels[0]
    } else {
        join(labels.drop_last()).push(SEPARATOR) + labels.last()
    }
}

/// Request units that `count` labels are grouped into.
pub open spec fn unit_count(count: nat) -> nat {
    ((count + UNIT_LABELS - 1) / (UNIT_LABELS as int)) as nat
}

/// Request unit `u` of a run of labels: four labels, or those that are left,
/// joined.
pub open spec fn unit(labels: Seq<Seq<u8>>, u: int) -> Seq<u8> {
    join(
        labels.subrange(
            UNIT_LABELS * u,
            if UNIT_LABELS * u + UNIT_LABELS <= labels.len() {
                UNIT_LABELS * u + UNIT_LABELS
            } else {
                labels.len() as int
            },
        ),
    )
}

/// The request units of a payload, in order, as text.
pub open spec fn frame_spec(payload: Seq<u8>, key: Seq<u8>) -> Seq<Seq<char>> {
    let labels = labels_of(payload, key);
    Seq::new(unit_count(labels.len()), |u: int| ascii_text(unit(labels, u)))
}

/// What `encrypt` returns: the request units of the payload, or `InvalidKey`
/// where there is a chunk to cipher and no key to cipher it with.
pub open spec fn encrypt_spec(payload: Seq<u8>, key: Seq<u8>) -> Result<
    Seq<Seq<char>>,
    ChannelError,
> {
    if payload.len() > 0 && key.len() == 0 {
        Err(ChannelError::InvalidKey)
    } else {
        Ok(frame_spec(payload, key))
    }
}

/// The byte strings that a vector of byte vectors holds.
spec fn rows(v: Seq<Vec<u8>>) -> Seq<Seq<u8>> {
    Seq::new(v.len(), |i: int| v[i]@)
}

/// Appends `src` to `out`.
fn append_bytes(out: &mut Vec<u8>, src: &[u8])
    ensures
        final(out)@ == old(out)@ + src@,
{
    let ghost before = out@;
    let mut i: usize = 0;
    while i < src.len()
        invariant
            i <= src@.len(),
            out@ == before + src@.take(i as int),
        decreases src@.len() - i,
    {
        out.push(src[i]);
        assert(src@.take(i + 1) =~= src@.take(i as int).push(src@[i as int]));
        i += 1;
    }
    assert(src@.take(src@.len() as int) =~= src@);
}

/// The labels of the chunks of `data` under `key`, in order.
fn seal_chunks(data: &[u8], key: &[u8]) -> (r: Result<Vec<Vec<u8>>, ChannelError>)
    ensures
        match r {
            Ok(labels) => (data@.len() == 0 || key@.len() > 0) && rows(labels@) == labels_of(
                data@,
                key@,
            ),
            Err(e) => e == ChannelError::InvalidKey && data@.len() > 0 && key@.len() == 0,
        },
{
    let n = data.len();
    let mut labels: Vec<Vec<u8>> = Vec::new();
    let mut start: usize = 0;
    while start < n
        invariant
            n == data@.len(),
            start <= n,
            start < n ==> start == 35 * labels@.len(),
            start == n ==> labels@.len() == chunk_count(n as nat),
            labels@.len() <= chunk_count(n as nat),
            labels@.len() > 0 ==> key@.len() > 0,
            forall|j: int|
                0 <= j < labels@.len() ==> (#[trigger] labels@[j])@ == seal(
                    chunk(data@, j),
                    key@,
                ),
        decreases n - start,
    {
        let end = if n - start > CHUNK_BYTES {
            start + CHUNK_BYTES
        } else {
            n
        };
        let piece = slice_subrange(data, start, end);
        assert(piece@ == chunk(data@, labels@.len() as int));
        let ciphered = match apply(piece, key) {
            Ok(bytes) => bytes,
            Err(e) => {
                return Err(e);
            },
        };
        let label = match b32_encode(ciphered.as_slice()) {
            Ok(label) => label,
            Err(e) => {
                return Err(e);
            },
        };
        labels.push(label);
        start = end;
    }
    assert(rows(labels@) =~= labels_of(data@, key@));
    Ok(labels)
}

/// The labels `from..to`, joined by the separator.
fn join_labels(labels: &Vec<Vec<u8>>, from: usize, to: usize) -> (r: Vec<u8>)
    requires
        from <= to <= labels@.len(),
    ensures
        r@ == join(rows(labels@).subrange(from as int, to as int)),
{
    let ghost all = rows(labels@);
    let mut out: Vec<u8> = Vec::new();
    let mut j: usize = from;
    assert(all.subrange(from as int, from as int) =~= Seq::<Seq<u8>>::empty());
    while j < to
        invariant
            from <= j <= to <= labels@.len(),
            all == rows(labels@),
            out@ == join(all.subrange(from as int, j as int)),
        decreases to - j,
    {
        if j > from {
            out.push(SEPARATOR);
        }
        append_bytes(&mut out, labels[j].as_slice());
        proof {
            let longer = all.subrange(from as int, j + 1);
            assert(longer.drop_last() =~= all.subrange(from as int, j as int));
            assert(longer.last() == labels@[j as int]@);
            if j == from {
                assert(out@ =~= longer[0]);
            }
        }
        j += 1;
    }
    out
}

/// Joined labels are ASCII.
proof fn lemma_join_ascii(labels: Seq<Seq<u8>>)
    requires
        forall|i: int| 0 <= i < labels.len() ==> is_label(#[trigger] labels[i]),
    ensures
        is_ascii_bytes(join(labels)),
    decreases labels.len(),
{
    if labels.len() == 1 {
        assert(is_label(labels[0]));
    } else if labels.len() > 1 {
        lemma_join_ascii(labels.drop_last());
        assert(is_label(labels.last()));
    }
}

/// Every request unit of a payload is ASCII.
proof fn lemma_unit_ascii(payload: Seq<u8>, key: Seq<u8>, u: int)
    requires
        0 <= u < unit_count(chunk_count(payload.len())),
    ensures
        is_ascii_bytes(unit(labels_of(payload, key), u)),
{
    let labels = labels_of(payload, key);
    let to = if 4 * u + 4 <= labels.len() {
        4 * u + 4
    } else {
        labels.len() as int
    };
    let group = labels.subrange(4 * u, to);
    assert forall|i: int| 0 <= i < group.len() implies is_label(#[trigger] group[i]) by {
        label_shape(keystream_xor(chunk(payload, 4 * u + i), key));
    }
    lemma_join_ascii(group);
}

/// Frames `data` under `xor_key`: the names of the requests that carry it,
/// in the order in which they are to be sent. Under a key that is not empty
/// this succeeds, and what it returns unframes to `data`.
pub fn encrypt(data: &[u8], xor_key: &[u8]) -> (r: Result<Vec<String>, ChannelError>)
    ensures
        match r {
            Ok(names) => {
                &&& encrypt_spec(data@, xor_key@) == Ok::<Seq<Seq<char>>, ChannelError>(
                    names.deep_view(),
                )
                &&& names@.len() == unit_count(chunk_count(data@.len()))
                &&& xor_key@.len() > 0 ==> unframe_spec(names.deep_view(), xor_key@) == Ok::<
                    Seq<u8>,
                    ChannelError,
                >(data@)
            },
            Err(e) => encrypt_spec(data@, xor_key@) == Err::<Seq<Seq<char>>, ChannelError>(e),
        },
{
    let labels = match seal_chunks(data, xor_key) {
        Ok(labels) => labels,
        Err(e) => {
            return Err(e);
        },
    };
    let count = labels.len();
    assert(count == labels_of(data@, xor_key@).len()) by {
        assert(rows(labels@).len() == count);
    }
    let mut names: Vec<String> = Vec::new();
    let mut from: usize = 0;
    while from < count
        invariant
            count == labels@.len(),
            count == chunk_count(data@.len()),
            rows(labels@) == labels_of(data@, xor_key@),
            from <= count,
            from < count ==> from == 4 * names@.len(),
            from == count ==> names@.len() == unit_count(count as nat),
            names@.len() <= unit_count(count as nat),
            forall|u: int|
                0 <= u < names@.len() ==> (#[trigger] names@[u])@ == ascii_text(
                    unit(labels_of(data@, xor_key@), u),
                ),
        decreases count - from,
    {
        let to = if count - from > UNIT_LABELS {
            from + UNIT_LABELS
        } else {
            count
        };
        let joined = join_labels(&labels, from, to);
        proof {
            lemma_unit_ascii(data@, xor_key@, names@.len() as int);
            lemma_ascii_text(joined@);
        }
        match String::from_utf8(joined) {
            Ok(name) => {
                names.push(name);
            },
            Err(_) => {
                return Err(ChannelError::Encoding);
            },
        }
        from = to;
    }
    assert(names.deep_view() =~= frame_spec(data@, xor_key@));
    proof {
        if xor_key@.len() > 0 {
            unframe_inverts_frame(data@, xor_key@);
        }
    }
    Ok(names)
}

/// The labels of one name: its bytes between the separators. A name without
/// a separator is one label; an empty name is one empty label.
pub open spec fn split(name: Seq<u8>) -> Seq<Seq<u8>>
    decreases name.len(),
{
    if name.len() == 0 {
        seq![Seq::<u8>::empty()]
    } else {
        let before = split(name.drop_last());
        if name.last() == SEPARATOR {
            before.push(Seq::<u8>::empty())
        } else {
            before.update(before.len() - 1, before.last().push(name.last()))
        }
    }
}

/// The labels of all names, in the order of the names and, within a name,
/// from left to right.
pub open spec fn all_labels(names: Seq<Seq<char>>) -> Seq<Seq<u8>>
    decreases names.len(),
{
    if names.len() == 0 {
        Seq::<Seq<u8>>::empty()
    } else {
        all_labels(names.drop_last()) + split(encode_utf8(names.last()))
    }
}

/// The chunk that one label holds: decoded, then deciphered from the first
/// byte of the key.
pub open spec fn open_label(label: Seq<u8>, key: Seq<u8>) -> Result<Seq<u8>, ChannelError> {
    match decode_spec(label) {
        Ok(bytes) => apply_spec(bytes, key),
        Err(e) => Err(ChannelError::Decode(e)),
    }
}

/// The chunks of a run of labels, put together in order; the failure of the
/// first label that fails, if one does.
pub open spec fn open_labels(labels: Seq<Seq<u8>>, key: Seq<u8>) -> Result<Seq<u8>, ChannelError>
    decreases labels.len(),
{
    if labels.len() == 0 {
        Ok(Seq::<u8>::empty())
    } else {
        match open_labels(labels.drop_last(), key) {
            Ok(head) => match open_label(labels.last(), key) {
                Ok(tail) => Ok(head + tail),
                Err(e) => Err(e),
            },
            Err(e) => Err(e),
        }
    }
}

/// What `decrypt` returns: the payload that the names carry.
pub open spec fn unframe_spec(names: Seq<Seq<char>>, key: Seq<u8>) -> Result<
    Seq<u8>,
    ChannelError,
> {
    open_labels(all_labels(names), key)
}

/// A name has at least one label.
proof fn lemma_split_nonempty(name: Seq<u8>)
    ensures
        split(name).len() >= 1,
    decreases name.len(),
{
    if name.len() > 0 {
        lemma_split_nonempty(name.drop_last());
    }
}

/// Appends the labels of one name to `labels`.
fn split_into(labels: &mut Vec<Vec<u8>>, name: &[u8])
    ensures
        rows(final(labels)@) == rows(old(labels)@) + split(name@),
{
    let ghost before = rows(labels@);
    let mut current: Vec<u8> = Vec::new();
    let mut i: usize = 0;
    assert(name@.take(0) =~= Seq::<u8>::empty());
    assert(rows(labels@).push(current@) =~= before + split(name@.take(0)));
    while i < name.len()
        invariant
            i <= name@.len(),
            rows(labels@).push(current@) == before + split(name@.take(i as int)),
        decreases name@.len() - i,
    {
        let ghost done = split(name@.take(i as int));
        proof {
            lemma_split_nonempty(name@.take(i as int));
            assert(name@.take(i + 1).drop_last() =~= name@.take(i as int));
            assert(done.last() == current@) by {
                assert((before + done).last() == rows(labels@).push(current@).last());
            }
            assert(rows(labels@) =~= before + done.drop_last()) by {
                assert(rows(labels@).push(current@).drop_last() =~= rows(labels@));
                assert((before + done).drop_last() =~= before + done.drop_last());
            }
        }
        let b = name[i];
        if b == SEPARATOR {
            let ghost closed = rows(labels@);
            labels.push(current);
            current = Vec::new();
            assert(rows(labels@).push(current@) =~= before + done.push(Seq::<u8>::empty())) by {
                assert(rows(labels@) =~= closed.push(done.last()));
            }
        } else {
            current.push(b);
            assert(rows(labels@).push(current@) =~= before + done.update(
                done.len() - 1,
                done.last().push(b),
            ));
        }
        i += 1;
    }
    assert(name@.take(name@.len() as int) =~= name@);
    let ghost closed = rows(labels@);
    labels.push(current);
    assert(rows(labels@) =~= closed.push(current@));
}

/// Reads one label back into its chunk.
fn unseal(label: &[u8], key: &[u8]) -> (r: Result<Vec<u8>, ChannelError>)
    ensures
        match r {
            Ok(bytes) => open_label(label@, key@) == Ok::<Seq<u8>, ChannelError>(bytes@),
            Err(e) => open_label(label@, key@) == Err::<Seq<u8>, ChannelError>(e),
        },
{
    match b32_decode(label) {
        Ok(bytes) => apply(bytes.as_slice(), key),
        Err(e) => Err(ChannelError::Decode(e)),
    }
}

/// Reads the payload back from the names that carried it, taken in the
/// order in which they were sent.
pub fn decrypt(data: Vec<String>, xor_key: &[u8]) -> (r: Result<Vec<u8>, ChannelError>)
    ensures
        match r {
            Ok(payload) => unframe_spec(data.deep_view(), xor_key@) == Ok::<
                Seq<u8>,
                ChannelError,
            >(payload@),
            Err(e) => unframe_spec(data.deep_view(), xor_key@) == Err::<Seq<u8>, ChannelError>(e),
        },
{
    let ghost names = data.deep_view();
    let mut labels: Vec<Vec<u8>> = Vec::new();
    let mut i: usize = 0;
    assert(names.take(0) =~= Seq::<Seq<char>>::empty());
    assert(rows(labels@) =~= all_labels(names.take(0)));
    while i < data.len()
        invariant
            i <= data@.len(),
            names == data.deep_view(),
            rows(labels@) == all_labels(names.take(i as int)),
        decreases data@.len() - i,
    {
        proof {
            assert(names.take(i + 1).drop_last() =~= names.take(i as int));
            assert(names.take(i + 1).last() == data@[i as int]@);
        }
        split_into(&mut labels, data[i].as_str().as_bytes());
        i += 1;
    }
    assert(names.take(data@.len() as int) =~= names);
    let ghost all = rows(labels@);
    let mut payload: Vec<u8> = Vec::new();
    let mut j: usize = 0;
    assert(all.take(0) =~= Seq::<Seq<u8>>::empty());
    while j < labels.len()
        invariant
            j <= labels@.len(),
            all == rows(labels@),
            all == all_labels(names),
            names == data.deep_view(),
            open_labels(all.take(j as int), xor_key@) == Ok::<Seq<u8>, ChannelError>(payload@),
        decreases labels@.len() - j,
    {
        proof {
            assert(all.take(j + 1).drop_last() =~= all.take(j as int));
            assert(all.take(j + 1).last() == labels@[j as int]@);
        }
        match unseal(labels[j].as_slice(), xor_key) {
            Ok(mut piece) => {
                payload.append(&mut piece);
            },
            Err(e) => {
                proof {
                    lemma_open_labels_fails(all, j as int, xor_key@);
                }
                return Err(e);
            },
        }
        j += 1;
    }
    assert(all.take(labels@.len() as int) =~= all);
    Ok(payload)
}

/// Where a run of labels fails on its first `at + 1` labels, it fails, and
/// in the same way.
proof fn lemma_open_labels_fails(labels: Seq<Seq<u8>>, at: int, key: Seq<u8>)
    requires
        0 <= at < labels.len(),
        open_labels(labels.take(at + 1), key) is Err,
    ensures
        open_labels(labels, key) == open_labels(labels.take(at + 1), key),
    decreases labels.len(),
{
    if at + 1 == labels.len() {
        assert(labels.take(at + 1) =~= labels);
    } else {
        assert(labels.drop_last().take(at + 1) =~= labels.take(at + 1));
        lemma_open_labels_fails(labels.drop_last(), at, key);
    }
}

/// Bytes without a separator, put behind a name, lengthen its last label.
proof fn lemma_split_append(name: Seq<u8>, more: Seq<u8>)
    requires
        forall|i: int| 0 <= i < more.len() ==> more[i] != SEPARATOR,
    ensures
        split(name).len() >= 1,
        split(name + more) == split(name).update(
            split(name).len() - 1,
            split(name).last() + more,
        ),
    decreases more.len(),
{
    lemma_split_nonempty(name);
    let parts = split(name);
    if more.len() == 0 {
        assert(name + more =~= name);
        assert(parts.last() + more =~= parts.last());
        assert(parts.update(parts.len() - 1, parts.last()) =~= parts);
    } else {
        let shorter = more.drop_last();
        lemma_split_append(name, shorter);
        assert((name + more).drop_last() =~= name + shorter);
        assert((name + more).last() == more.last());
        let before = split(name + shorter);
        assert(before.last().push(more.last()) =~= parts.last() + more);
        assert(before.update(before.len() - 1, parts.last() + more) =~= parts.update(
            parts.len() - 1,
            parts.last() + more,
        ));
    }
}

/// Cutting a joined run of labels at the separators gives the labels back.
proof fn lemma_split_join(labels: Seq<Seq<u8>>)
    requires
        labels.len() >= 1,
        forall|i: int| 0 <= i < labels.len() ==> is_label(#[trigger] labels[i]),
    ensures
        split(join(labels)) == labels,
    decreases labels.len(),
{
    let last = labels.last();
    assert(is_label(last));
    assert forall|i: int| 0 <= i < last.len() implies last[i] != SEPARATOR by {
        assert(is_symbol(last[i]) || last[i] == PAD);
    }
    if labels.len() == 1 {
        let nothing = Seq::<u8>::empty();
        lemma_split_append(nothing, last);
        assert(nothing + last =~= last);
        assert(split(nothing) =~= seq![nothing]);
        assert(seq![nothing].update(0, nothing + last) =~= labels);
    } else {
        let head = labels.drop_last();
        lemma_split_join(head);
        let stem = join(head).push(SEPARATOR);
        assert(stem.drop_last() =~= join(head));
        assert(split(stem) == head.push(Seq::<u8>::empty()));
        lemma_split_append(stem, last);
        assert(head.push(Seq::<u8>::empty()).update(
            head.len() as int,
            Seq::<u8>::empty() + last,
        ) =~= labels);
    }
}

/// The labels of the first `count` request units of a run of labels are the
/// labels that those units were made from.
proof fn lemma_labels_of_units(labels: Seq<Seq<u8>>, count: int)
    requires
        0 <= count <= unit_count(labels.len()),
        forall|i: int| 0 <= i < labels.len() ==> is_label(#[trigger] labels[i]),
    ensures
        all_labels(Seq::new(count as nat, |u: int| ascii_text(unit(labels, u)))) == labels.take(
            if 4 * count <= labels.len() {
                4 * count
            } else {
                labels.len() as int
            },
        ),
    decreases count,
{
    let names = Seq::new(count as nat, |u: int| ascii_text(unit(labels, u)));
    if count == 0 {
        assert(labels.take(0) =~= Seq::<Seq<u8>>::empty());
    } else {
        let u = count - 1;
        lemma_labels_of_units(labels, u);
        assert(names.drop_last() =~= Seq::new(u as nat, |u: int| ascii_text(unit(labels, u))));
        let to = if 4 * u + 4 <= labels.len() {
            4 * u + 4
        } else {
            labels.len() as int
        };
        let group = labels.subrange(4 * u, to);
        assert forall|i: int| 0 <= i < group.len() implies is_label(#[trigger] group[i]) by {
            assert(is_label(labels[4 * u + i]));
        }
        lemma_join_ascii(group);
        lemma_ascii_text(join(group));
        lemma_split_join(group);
        assert(names.last() == ascii_text(join(group)));
        assert(labels.take(4 * u) + group =~= labels.take(to));
    }
}

/// A sealed chunk opens to the chunk.
proof fn lemma_open_sealed(chunk: Seq<u8>, key: Seq<u8>)
    requires
        key.len() > 0,
    ensures
        open_label(seal(chunk, key), key) == Ok::<Seq<u8>, ChannelError>(chunk),
{
    decode_inverts_encode(keystream_xor(chunk, key));
    apply_twice_restores(chunk, key);
}

/// The first `count` labels of a payload open to its first `count` chunks.
proof fn lemma_open_chunks(payload: Seq<u8>, key: Seq<u8>, count: int)
    requires
        key.len() > 0,
        0 <= count <= chunk_count(payload.len()),
    ensures
        open_labels(labels_of(payload, key).take(count), key) == Ok::<Seq<u8>, ChannelError>(
            payload.take(
                if 35 * count <= payload.len() {
                    35 * count
                } else {
                    payload.len() as int
                },
            ),
        ),
    decreases count,
{
    let labels = labels_of(payload, key);
    if count == 0 {
        assert(payload.take(0) =~= Seq::<u8>::empty());
    } else {
        let c = count - 1;
        lemma_open_chunks(payload, key, c);
        assert(labels.take(count).drop_last() =~= labels.take(c));
        assert(labels.take(count).last() == seal(chunk(payload, c), key));
        lemma_open_sealed(chunk(payload, c), key);
        let to = if 35 * count <= payload.len() {
            35 * count
        } else {
            payload.len() as int
        };
        assert(payload.take(35 * c) + chunk(payload, c) =~= payload.take(to));
    }
}

/// Every label of a payload is a label of whole groups of eight, of at most
/// 56 symbols, and so fits one component of a name.
pub proof fn labels_fit_a_component(payload: Seq<u8>, key: Seq<u8>, i: int)
    requires
        0 <= i < chunk_count(payload.len()),
    ensures
        is_label(labels_of(payload, key)[i]),
        labels_of(payload, key)[i].len() % 8 == 0,
        0 < labels_of(payload, key)[i].len() <= 56,
{
    label_shape(keystream_xor(chunk(payload, i), key));
}

/// Unframing what was framed, under the same key, gives the payload back.
pub proof fn unframe_inverts_frame(payload: Seq<u8>, key: Seq<u8>)
    requires
        key.len() > 0,
    ensures
        encrypt_spec(payload, key) == Ok::<Seq<Seq<char>>, ChannelError>(
            frame_spec(payload, key),
        ),
        unframe_spec(frame_spec(payload, key), key) == Ok::<Seq<u8>, ChannelError>(payload),
{
    let labels = labels_of(payload, key);
    assert forall|i: int| 0 <= i < labels.len() implies is_label(#[trigger] labels[i]) by {
        labels_fit_a_component(payload, key, i);
    }
    lemma_labels_of_units(labels, unit_count(labels.len()) as int);
    assert(labels.take(labels.len() as int) =~= labels);
    assert(all_labels(frame_spec(payload, key)) == labels);
    lemma_open_chunks(payload, key, chunk_count(payload.len()) as int);
    assert(payload.take(payload.len() as int) =~= payload);
}

/// An empty payload frames to no request unit, whatever the key, and no
/// name unframes to the empty payload.
pub proof fn empty_frames_to_nothing(key: Seq<u8>)
    ensures
        encrypt_spec(Seq::<u8>::empty(), key) == Ok::<Seq<Seq<char>>, ChannelError>(
            Seq::<Seq<char>>::empty(),
        ),
        unframe_spec(Seq::<Seq<char>>::empty(), key) == Ok::<Seq<u8>, ChannelError>(
            Seq::<u8>::empty(),
        ),
{
    assert(frame_spec(Seq::<u8>::empty(), key) =~= Seq::<Seq<char>>::empty());
}

} // verus!
