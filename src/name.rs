//! Domain names on the wire: length-prefixed labels, and compression
//! pointers that redirect decoding to an earlier offset of the same buffer.
use vstd::prelude::*;
use vstd::utf8::{decode_utf8, valid_utf8};

use crate::error::DnsError;

verus! {

/// The byte that separates the labels of a dotted name.
pub const DOT: u8 = 0x2E;

/// The labels of `b` split on every dot, as `str::split('.')` yields them:
/// `k` dots give `k + 1` labels, empty ones included.
pub open spec fn split_dots(b: Seq<u8>) -> Seq<Seq<u8>>
    decreases b.len(),
{
    if b.len() == 0 {
        seq![Seq::<u8>::empty()]
    } else {
        let s = split_dots(b.drop_last());
        if b.last() == DOT {
            s.push(Seq::<u8>::empty())
        } else {
            s.update(s.len() - 1, s.last().push(b.last()))
        }
    }
}

/// The labels joined with a dot between each two.
pub open spec fn join_dots(labels: Seq<Seq<u8>>) -> Seq<u8>
    decreases labels.len(),
{
    if labels.len() == 0 {
        Seq::<u8>::empty()
    } else if labels.len() == 1 {
        labels[0]
    } else {
        join_dots(labels.drop_last()) + seq![DOT] + labels.last()
    }
}

/// The labels of a name written as bytes; the empty name is the root and has none.
pub open spec fn name_labels(b: Seq<u8>) -> Seq<Seq<u8>> {
    if b.len() == 0 {
        Seq::empty()
    } else {
        split_dots(b)
    }
}

/// Each label preceded by its length byte.
pub open spec fn labels_wire(labels: Seq<Seq<u8>>) -> Seq<u8>
    decreases labels.len(),
{
    if labels.len() == 0 {
        Seq::<u8>::empty()
    } else {
        labels_wire(labels.drop_last()) + seq![labels.last().len() as u8] + labels.last()
    }
}

/// Every label's length fits in the seven bits a length byte may use.
pub open spec fn labels_fit(labels: Seq<Seq<u8>>) -> bool {
    forall|i: int| 0 <= i < labels.len() ==> #[trigger] labels[i].len() < 128
}

/// A name, given as its bytes, can be encoded.
pub open spec fn name_encodable(b: Seq<u8>) -> bool {
    labels_fit(name_labels(b))
}

/// The wire form of a name given as its bytes: its labels, then a zero byte.
pub open spec fn name_wire(b: Seq<u8>) -> Seq<u8> {
    labels_wire(name_labels(b)) + seq![0u8]
}

/// The UTF-8 bytes of a name.
pub open spec fn name_bytes(name: Seq<char>) -> Seq<u8> {
    vstd::utf8::encode_utf8(name)
}

proof fn lemma_split_nonempty(b: Seq<u8>)
    ensures
        split_dots(b).len() >= 1,
    decreases b.len(),
{
    if b.len() > 0 {
        lemma_split_nonempty(b.drop_last());
    }
}

/// Splitting a longer prefix of `b` keeps every finished label of a shorter one.
proof fn lemma_split_prefix(b: Seq<u8>, i: int, j: int)
    requires
        0 <= i <= j <= b.len(),
    ensures
        split_dots(b.subrange(0, i)).len() <= split_dots(b.subrange(0, j)).len(),
        forall|k: int|
            0 <= k < split_dots(b.subrange(0, i)).len() - 1 ==> split_dots(b.subrange(0, j))[k]
                == split_dots(b.subrange(0, i))[k],
    decreases j - i,
{
    if i < j {
        lemma_split_prefix(b, i, j - 1);
        let p = b.subrange(0, j);
        assert(p.drop_last() =~= b.subrange(0, j - 1));
        lemma_split_nonempty(p.drop_last());
    }
}

/// Writes a dotted name as length-prefixed labels ended by a zero byte.
pub fn serialize_name(input: &str) -> (r: Result<Vec<u8>, DnsError>)
    ensures
        match r {
            Ok(v) => name_encodable(name_bytes(input@)) && v@ == name_wire(name_bytes(input@)),
            Err(e) => e == DnsError::EncodingOverflow && !name_encodable(name_bytes(input@)),
        },
{
    let bytes = input.as_bytes();
    let n = bytes.len();
    let mut out: Vec<u8> = Vec::new();
    if n == 0 {
        out.push(0);
        assert(out@ =~= name_wire(bytes@));
        return Ok(out);
    }
    let ghost b = bytes@;
    let mut start: usize = 0;
    let mut i: usize = 0;
    while i < n
        invariant
            b == bytes@,
            b == name_bytes(input@),
            n == b.len(),
            start <= i <= n,
            split_dots(b.subrange(0, i as int)).last() == b.subrange(start as int, i as int),
            out@ == labels_wire(split_dots(b.subrange(0, i as int)).drop_last()),
            labels_fit(split_dots(b.subrange(0, i as int)).drop_last()),
        decreases n - i,
    {
        let ghost s = split_dots(b.subrange(0, i as int));
        proof {
            lemma_split_nonempty(b.subrange(0, i as int));
            assert(b.subrange(0, i + 1).drop_last() =~= b.subrange(0, i as int));
        }
        if bytes[i] == DOT {
            let len = i - start;
            if len >= 128 {
                proof {
                    let s2 = split_dots(b.subrange(0, i + 1));
                    assert(s2 == s.push(Seq::<u8>::empty()));
                    assert(s2[s.len() - 1] == s.last());
                    lemma_split_prefix(b, i + 1, n as int);
                    assert(b.subrange(0, n as int) =~= b);
                    assert(split_dots(b)[s.len() - 1].len() >= 128);
                    assert(name_labels(b) == split_dots(b));
                    assert(!labels_fit(split_dots(b)));
                }
                return Err(DnsError::EncodingOverflow);
            }
            out.push(len as u8);
            let mut j: usize = start;
            while j < i
                invariant
                    start <= j <= i < n,
                    b == bytes@,
                    n == b.len(),
                    out@ == labels_wire(s.drop_last()) + seq![len as u8] + b.subrange(start as int, j as int),
                decreases i - j,
            {
                out.push(bytes[j]);
                j = j + 1;
                assert(out@ =~= labels_wire(s.drop_last()) + seq![len as u8] + b.subrange(start as int, j as int));
            }
            start = i + 1;
            proof {
                let s2 = split_dots(b.subrange(0, i + 1));
                assert(s2 == s.push(Seq::<u8>::empty()));
                assert(s2.drop_last() =~= s);
                assert(s.drop_last().push(s.last()) =~= s);
                assert(labels_wire(s) == labels_wire(s.drop_last()) + seq![s.last().len() as u8] + s.last());
                assert(b.subrange(start as int, i + 1) =~= Seq::<u8>::empty());
            }
        } else {
            proof {
                let s2 = split_dots(b.subrange(0, i + 1));
                assert(s2.drop_last() =~= s.drop_last());
                assert(b.subrange(start as int, i + 1) =~= b.subrange(start as int, i as int).push(b[i as int]));
            }
        }
        i = i + 1;
    }
    assert(b.subrange(0, n as int) =~= b);
    let ghost s = split_dots(b);
    proof { lemma_split_nonempty(b); }
    let len = n - start;
    if len >= 128 {
        assert(s[s.len() - 1].len() >= 128);
        return Err(DnsError::EncodingOverflow);
    }
    out.push(len as u8);
    let mut j: usize = start;
    while j < n
        invariant
            start <= j <= n,
            b == bytes@,
            b == name_bytes(input@),
            n == b.len(),
            out@ == labels_wire(s.drop_last()) + seq![len as u8] + b.subrange(start as int, j as int),
        decreases n - j,
    {
        out.push(bytes[j]);
        j = j + 1;
        assert(out@ =~= labels_wire(s.drop_last()) + seq![len as u8] + b.subrange(start as int, j as int));
    }
    out.push(0);
    proof {
        assert(s.drop_last().push(s.last()) =~= s);
        assert(labels_fit(s));
    }
    assert(out@ =~= name_wire(b));
    Ok(out)
}

/// Whether a byte begins a compression pointer (its top two bits are set).
pub open spec fn is_pointer(b: u8) -> bool {
    b >= 0xC0
}

/// The absolute offset that a pointer's two bytes name: their low 14 bits.
pub open spec fn pointer_target(hi: u8, lo: u8) -> int {
    (hi as int % 64) * 256 + lo as int
}

/// Walks the name that starts at `pos`, following at most `hops` pointers.
/// Gives the labels read and the offset where the enclosing record goes on:
/// after the zero byte when no pointer is met, else after the first pointer.
/// `None` when the walk leaves the buffer or needs more pointers than `hops`.
pub open spec fn name_at(buf: Seq<u8>, pos: int, hops: nat) -> Option<(Seq<Seq<u8>>, int)>
    decreases hops, buf.len() - pos,
    when 0 <= pos
{
    if pos >= buf.len() {
        None
    } else if buf[pos] == 0 {
        Some((Seq::empty(), pos + 1))
    } else if is_pointer(buf[pos]) {
        if pos + 1 >= buf.len() || hops == 0 {
            None
        } else {
            match name_at(buf, pointer_target(buf[pos], buf[pos + 1]), (hops - 1) as nat) {
                Some((labels, _)) => Some((labels, pos + 2)),
                None => None,
            }
        }
    } else {
        let end = pos + 1 + buf[pos];
        if end > buf.len() {
            None
        } else {
            match name_at(buf, end, hops) {
                Some((labels, e)) => Some((seq![buf.subrange(pos + 1, end)] + labels, e)),
                None => None,
            }
        }
    }
}

/// Every label is valid UTF-8.
pub open spec fn labels_utf8(labels: Seq<Seq<u8>>) -> bool {
    forall|i: int| 0 <= i < labels.len() ==> valid_utf8(#[trigger] labels[i])
}

/// What a name decodes to: its text and the offset after it in the enclosing
/// record. The walk may follow as many pointers as the buffer has bytes,
/// and every label must be UTF-8.
pub open spec fn name_decoded(buf: Seq<u8>, pos: int) -> Result<(Seq<char>, int), DnsError> {
    match name_at(buf, pos, buf.len()) {
        Some((labels, end)) => if labels_utf8(labels) {
            Ok((decode_utf8(join_dots(labels)), end))
        } else {
            Err(DnsError::MalformedName)
        },
        None => Err(DnsError::MalformedName),
    }
}

/// The whole walk, given the labels read so far, the outer offset fixed by a
/// pointer already followed, and the walk that remains.
spec fn resume(
    read: Seq<Seq<u8>>,
    fixed: Option<int>,
    rest: Option<(Seq<Seq<u8>>, int)>,
) -> Option<(Seq<Seq<u8>>, int)> {
    match rest {
        Some((labels, end)) => Some(
            (
                read + labels,
                match fixed {
                    Some(f) => f,
                    None => end,
                },
            ),
        ),
        None => None,
    }
}

proof fn lemma_resume_label(
    read: Seq<Seq<u8>>,
    label: Seq<u8>,
    fixed: Option<int>,
    rest: Option<(Seq<Seq<u8>>, int)>,
)
    ensures
        resume(read, fixed, match rest {
            Some((labels, e)) => Some((seq![label] + labels, e)),
            None => None,
        }) == resume(read.push(label), fixed, rest),
{
    match rest {
        Some((labels, e)) => {
            assert(read + (seq![label] + labels) =~= read.push(label) + labels);
        },
        None => {},
    }
}

/// A dot followed by some bytes is UTF-8 exactly when those bytes are.
proof fn lemma_dot_prefix_utf8(rest: Seq<u8>)
    ensures
        valid_utf8(seq![DOT] + rest) == valid_utf8(rest),
{
    let x = seq![DOT] + rest;
    assert(x.subrange(1, x.len() as int) =~= rest);
}

/// Labels joined by dots are UTF-8 exactly when each label is.
proof fn lemma_join_utf8(labels: Seq<Seq<u8>>)
    ensures
        valid_utf8(join_dots(labels)) == labels_utf8(labels),
    decreases labels.len(),
{
    if labels.len() == 1 {
        assert(labels_utf8(labels) == valid_utf8(labels[0]));
    } else if labels.len() >= 2 {
        let init = labels.drop_last();
        let last = labels.last();
        let j = join_dots(init);
        lemma_join_utf8(init);
        lemma_dot_prefix_utf8(last);
        assert(join_dots(labels) =~= j + (seq![DOT] + last));
        assert(forall|i: int| 0 <= i < init.len() ==> init[i] == labels[i]);
        if labels_utf8(labels) {
            assert(valid_utf8(last));
            assert(labels_utf8(init));
            vstd::utf8::valid_utf8_concat(j, seq![DOT] + last);
        } else if valid_utf8(join_dots(labels)) {
            let x = join_dots(labels);
            let k = j.len() as int;
            assert(x[k] == DOT);
            vstd::utf8::is_char_boundary_iff_not_is_continuation_byte(x, k);
            vstd::utf8::valid_utf8_split(x, k);
            assert(x.subrange(0, k) =~= j);
            assert(x.subrange(k, x.len() as int) =~= seq![DOT] + last);
            assert(labels_utf8(init));
            assert(valid_utf8(last));
            assert forall|i: int| 0 <= i < labels.len() implies valid_utf8(#[trigger] labels[i]) by {
                if i < init.len() {
                    assert(init[i] == labels[i]);
                }
            }
        }
    }
}

/// Relies on `String::from_utf8`: it succeeds exactly on valid UTF-8, and the
/// string then holds the characters those bytes encode.
#[verifier::external_body]
fn string_from_utf8(bytes: Vec<u8>) -> (r: Option<String>)
    ensures
        match r {
            Some(s) => valid_utf8(bytes@) && s@ == decode_utf8(bytes@),
            None => !valid_utf8(bytes@),
        },
{
    String::from_utf8(bytes).ok()
}

/// Reads the name at `pos`, following compression pointers, and returns it
/// with the offset where the enclosing record continues.
pub fn deserialize_name(raw: &[u8], pos: usize) -> (r: Result<(String, usize), DnsError>)
    ensures
        match r {
            Ok((name, end)) => name_decoded(raw@, pos as int) == Ok::<(Seq<char>, int), DnsError>((name@, end as int)),
            Err(e) => name_decoded(raw@, pos as int) == Err::<(Seq<char>, int), DnsError>(e),
        },
{
    let n = raw.len();
    let ghost b = raw@;
    let mut cur: usize = pos;
    let mut end_pos: usize = pos;
    let mut followed = false;
    let mut hops: usize = n;
    let mut joined: Vec<u8> = Vec::new();
    let ghost mut read: Seq<Seq<u8>> = Seq::empty();
    let mut any_label = false;
    loop
        invariant
            b == raw@,
            n == b.len(),
            hops <= n,
            joined@ == join_dots(read),
            any_label == (read.len() > 0),
            name_at(b, pos as int, n as nat) == resume(
                read,
                if followed { Some(end_pos as int) } else { None },
                name_at(b, cur as int, hops as nat),
            ),
        decreases hops, n - cur,
    {
        if cur >= n {
            return Err(DnsError::MalformedName);
        }
        let v = raw[cur];
        if v == 0 {
            if !followed {
                end_pos = cur + 1;
            }
            assert(read + Seq::<Seq<u8>>::empty() =~= read);
            proof {
                lemma_join_utf8(read);
            }
            return match string_from_utf8(joined) {
                Some(name) => Ok((name, end_pos)),
                None => Err(DnsError::MalformedName),
            };
        } else if v >= 0xC0 {
            if cur + 1 >= n || hops == 0 {
                return Err(DnsError::MalformedName);
            }
            let target = (v - 0xC0) as usize * 256 + raw[cur + 1] as usize;
            assert(target == pointer_target(v, b[cur + 1]));
            if !followed {
                end_pos = cur + 2;
                followed = true;
            }
            hops = hops - 1;
            cur = target;
        } else {
            let begin = cur + 1;
            if v as usize > n - begin {
                return Err(DnsError::MalformedName);
            }
            let end = begin + v as usize;
            let ghost label = b.subrange(begin as int, end as int);
            let ghost start = joined@;
            if any_label {
                joined.push(DOT);
            }
            let ghost sep = joined@;
            let mut j: usize = begin;
            while j < end
                invariant
                    b == raw@,
                    n == b.len(),
                    begin <= j <= end <= n,
                    joined@ == sep + b.subrange(begin as int, j as int),
                decreases end - j,
            {
                joined.push(raw[j]);
                j = j + 1;
                assert(joined@ =~= sep + b.subrange(begin as int, j as int));
            }
            proof {
                assert(read.push(label).drop_last() =~= read);
                if read.len() > 0 {
                    assert(sep =~= start + seq![DOT]);
                } else {
                    assert(sep =~= Seq::<u8>::empty());
                }
                assert(joined@ =~= join_dots(read.push(label)));
                lemma_resume_label(
                    read,
                    b.subrange(begin as int, end as int),
                    if followed { Some(end_pos as int) } else { None },
                    name_at(b, end as int, hops as nat),
                );
                read = read.push(label);
            }
            any_label = true;
            cur = end;
        }
    }
}

/// Joining the labels split off a name gives the name back.
pub proof fn lemma_join_split(b: Seq<u8>)
    ensures
        join_dots(split_dots(b)) == b,
    decreases b.len(),
{
    if b.len() > 0 {
        let p = b.drop_last();
        lemma_join_split(p);
        lemma_split_nonempty(p);
        let s = split_dots(p);
        let c = b.last();
        if c == DOT {
            assert(s.push(Seq::<u8>::empty()).drop_last() =~= s);
            assert(b =~= p + seq![DOT] + Seq::<u8>::empty());
        } else {
            let t = s.update(s.len() - 1, s.last().push(c));
            if s.len() == 1 {
                assert(b =~= p.push(c));
            } else {
                assert(t.drop_last() =~= s.drop_last());
                assert(join_dots(s) == join_dots(s.drop_last()) + seq![DOT] + s.last());
                assert(b =~= p.push(c));
                assert(b =~= join_dots(s.drop_last()) + seq![DOT] + s.last().push(c));
            }
        }
    }
}

/// A name whose labels are each of 1 to 63 bytes, or the root name.
pub open spec fn name_well_formed(name: Seq<char>) -> bool {
    forall|i: int|
        0 <= i < name_labels(name_bytes(name)).len() ==> 0 < #[trigger] name_labels(
            name_bytes(name),
        )[i].len() <= 63
}

/// `buf` holds `w` from offset `p` on.
pub open spec fn holds_at(buf: Seq<u8>, p: int, w: Seq<u8>) -> bool {
    &&& 0 <= p
    &&& p + w.len() <= buf.len()
    &&& buf.subrange(p, p + w.len()) == w
}

/// Where `buf` holds `a + b` at `p`, it holds `a` at `p` and `b` right after.
pub proof fn lemma_holds_split(buf: Seq<u8>, p: int, a: Seq<u8>, b: Seq<u8>)
    requires
        holds_at(buf, p, a + b),
    ensures
        holds_at(buf, p, a),
        holds_at(buf, p + a.len(), b),
{
    assert(buf.subrange(p, p + a.len()) =~= (a + b).subrange(0, a.len() as int));
    assert(buf.subrange(p + a.len(), p + a.len() + b.len()) =~= (a + b).subrange(
        a.len() as int,
        (a + b).len() as int,
    ));
    assert((a + b).subrange(0, a.len() as int) =~= a);
    assert((a + b).subrange(a.len() as int, (a + b).len() as int) =~= b);
}

/// Walking over labels written inline reads them one by one and goes on
/// after them.
proof fn lemma_walk_labels(buf: Seq<u8>, p: int, labels: Seq<Seq<u8>>, hops: nat)
    requires
        holds_at(buf, p, labels_wire(labels)),
        forall|i: int| 0 <= i < labels.len() ==> 0 < #[trigger] labels[i].len() <= 63,
    ensures
        name_at(buf, p, hops) == match name_at(buf, p + labels_wire(labels).len(), hops) {
            Some((rest, e)) => Some((labels + rest, e)),
            None => None,
        },
    decreases labels.len(),
{
    if labels.len() == 0 {
        match name_at(buf, p, hops) {
            Some((rest, e)) => {
                assert(labels + rest =~= rest);
            },
            None => {},
        }
    } else {
        let init = labels.drop_last();
        let x = labels.last();
        let q = p + labels_wire(init).len();
        lemma_holds_split(buf, p, labels_wire(init) + seq![x.len() as u8], x);
        lemma_holds_split(buf, p, labels_wire(init), seq![x.len() as u8]);
        assert(forall|i: int| 0 <= i < init.len() ==> init[i] == labels[i]);
        lemma_walk_labels(buf, p, init, hops);
        assert(buf.subrange(q, q + 1)[0] == buf[q]);
        assert(buf[q] == x.len() as u8);
        assert(buf.subrange(q + 1, q + 1 + x.len()) == x);
        let end = q + 1 + x.len();
        assert(labels_wire(labels).len() == labels_wire(init).len() + 1 + x.len());
        match name_at(buf, end, hops) {
            Some((rest, e)) => {
                assert(init + (seq![x] + rest) =~= labels + rest);
            },
            None => {},
        }
    }
}

/// A well-formed name written at `p` decodes to itself, and the record
/// goes on right after its wire form.
pub proof fn lemma_name_round_trip(buf: Seq<u8>, p: int, name: Seq<char>)
    requires
        name_well_formed(name),
        holds_at(buf, p, name_wire(name_bytes(name))),
    ensures
        name_decoded(buf, p) == Ok::<(Seq<char>, int), DnsError>(
            (name, p + name_wire(name_bytes(name)).len()),
        ),
{
    let b = name_bytes(name);
    let labels = name_labels(b);
    lemma_holds_split(buf, p, labels_wire(labels), seq![0u8]);
    let q = p + labels_wire(labels).len();
    assert(buf.subrange(q, q + 1)[0] == buf[q]);
    assert(buf[q] == 0u8);
    lemma_walk_labels(buf, p, labels, buf.len());
    assert(labels + Seq::<Seq<u8>>::empty() =~= labels);
    if b.len() > 0 {
        lemma_join_split(b);
    }
    vstd::utf8::encode_utf8_valid_utf8(name);
    vstd::utf8::encode_utf8_decode_utf8(name);
    lemma_join_utf8(labels);
}

/// A name written as a pointer to a name written inline decodes to that
/// name, and the record goes on two bytes after the pointer.
pub proof fn lemma_pointer_resolution(buf: Seq<u8>, x: int, y: int)
    requires
        0 <= x,
        x + 1 < buf.len(),
        is_pointer(buf[x]),
        pointer_target(buf[x], buf[x + 1]) == y,
        name_at(buf, y, 0) is Some,
    ensures
        name_decoded(buf, x) == match name_decoded(buf, y) {
            Ok((name, _)) => Ok::<(Seq<char>, int), DnsError>((name, x + 2)),
            Err(e) => Err(e),
        },
{
    lemma_walk_budget(buf, y, 0, buf.len() as nat);
    lemma_walk_budget(buf, y, 0, (buf.len() - 1) as nat);
}

/// A walk that succeeds with some pointer budget gives the same with a larger one.
proof fn lemma_walk_budget(buf: Seq<u8>, p: int, h: nat, h2: nat)
    requires
        0 <= p,
        h <= h2,
        name_at(buf, p, h) is Some,
    ensures
        name_at(buf, p, h2) == name_at(buf, p, h),
    decreases h, buf.len() - p,
{
    if p < buf.len() && buf[p] != 0 {
        if is_pointer(buf[p]) {
            lemma_walk_budget(buf, pointer_target(buf[p], buf[p + 1]), (h - 1) as nat, (h2 - 1) as nat);
        } else {
            lemma_walk_budget(buf, p + 1 + buf[p], h, h2);
        }
    }
}

/// A pointer to itself never ends: decoding fails instead of looping.
pub proof fn lemma_pointer_cycle_rejected(buf: Seq<u8>, x: int)
    requires
        0 <= x,
        x + 1 < buf.len(),
        is_pointer(buf[x]),
        pointer_target(buf[x], buf[x + 1]) == x,
    ensures
        name_decoded(buf, x) == Err::<(Seq<char>, int), DnsError>(DnsError::MalformedName),
{
    lemma_self_pointer_walk(buf, x, buf.len() as nat);
}

proof fn lemma_self_pointer_walk(buf: Seq<u8>, x: int, h: nat)
    requires
        0 <= x,
        x + 1 < buf.len(),
        is_pointer(buf[x]),
        pointer_target(buf[x], buf[x + 1]) == x,
    ensures
        name_at(buf, x, h) is None,
    decreases h,
{
    if h > 0 {
        lemma_self_pointer_walk(buf, x, (h - 1) as nat);
    }
}

} // verus!
