//! The label codec: converting between a dotted domain-name string and the
//! ordered sequence of (length, text) labels used on the wire, and decoding
//! compressed label sequences that may jump through RFC 1035 §4.1.4
//! pointers to an earlier offset of the same message buffer.
//!
//! Each label's text is modelled one byte per character: a byte `b` read
//! from the wire becomes the character `b as char`, and a character `c`
//! written to the wire becomes the byte `c as u8`.

use crate::dns_error::DNSError;
use vstd::prelude::*;
use vstd::string::*;

verus! {

/// A decoded label sequence: one (length, text) pair per label.
pub type Labels = Vec<(u8, String)>;

/// A length byte whose top two bits are both set is a compression pointer.
pub const COMPRESSION_TAG: u8 = 0xC0;

/// Relies on `String::push`: appends the given character to the string.
pub assume_specification[ String::push ](s: &mut String, ch: char)
    ensures
        final(s)@ == old(s)@.push(ch),
;

/// The mathematical value of one label: its length byte and its characters.
pub open spec fn label_view(l: (u8, String)) -> (r: (u8, Seq<char>)) {
    (l.0, l.1@)
}

/// A character that survives the wire: it fits in one byte.
pub open spec fn char_fits(c: char) -> bool {
    (c as u32) < 256
}

/// A character that fits in one byte comes back unchanged from the wire.
pub proof fn lemma_char_byte_round_trip(c: char)
    requires
        char_fits(c),
    ensures
        ((c as u8) as char) == c,
{
    let u = c as u32;
    assert(u < 256 ==> ((u as u8) as u32) == u) by (bit_vector);
    vstd::utf8::char_u32_cast(c, u);
}

/// The mathematical value of a label sequence.
pub open spec fn labels_view(ls: Seq<(u8, String)>) -> Seq<(u8, Seq<char>)> {
    ls.map(|i: int, l: (u8, String)| label_view(l))
}

/// A label that encodes and decodes faithfully: the length byte counts the
/// characters, is no compression tag, and every character is one byte.
pub open spec fn label_wf(l: (u8, Seq<char>)) -> bool {
    &&& l.1.len() == l.0 as int
    &&& l.0 < COMPRESSION_TAG
    &&& forall|i: int| 0 <= i < l.1.len() ==> char_fits(#[trigger] l.1[i])
}

/// A label sequence that encodes and decodes faithfully: at least one
/// label, each well formed, and only the first may be empty (decoding
/// stops at the first zero length byte).
pub open spec fn labels_wf(ls: Seq<(u8, Seq<char>)>) -> bool {
    &&& ls.len() >= 1
    &&& forall|i: int| 0 <= i < ls.len() ==> label_wf(#[trigger] ls[i])
    &&& forall|i: int| 1 <= i < ls.len() ==> (#[trigger] ls[i]).0 >= 1
}

/// The wire bytes of one label: the length byte, then one byte per character.
pub open spec fn spec_label_bytes(l: (u8, Seq<char>)) -> Seq<u8> {
    seq![l.0] + l.1.map(|i: int, c: char| c as u8)
}

/// The wire bytes of a label sequence, without the terminating zero byte.
pub open spec fn spec_labels_bytes(ls: Seq<(u8, Seq<char>)>) -> Seq<u8>
    decreases ls.len(),
{
    if ls.len() == 0 {
        Seq::empty()
    } else {
        spec_label_bytes(ls[0]) + spec_labels_bytes(ls.drop_first())
    }
}

/// The byte length of an uncompressed encoding of a label sequence: one
/// length byte plus the announced length per label, plus the terminator.
pub open spec fn spec_labels_size(ls: Seq<(u8, Seq<char>)>) -> int
    decreases ls.len(),
{
    if ls.len() == 0 {
        1
    } else {
        ls[0].0 + 1 + spec_labels_size(ls.drop_first())
    }
}

/// The domain segments of `s`: split on `'.'`, keeping empty segments.
/// `i` scans the characters, `start` marks the current segment's beginning.
pub open spec fn spec_split_rec(s: Seq<char>, i: int, start: int, acc: Seq<Seq<char>>) -> Seq<
    Seq<char>,
>
    decreases s.len() - i,
{
    if i < 0 || i >= s.len() {
        acc.push(s.subrange(start, s.len() as int))
    } else if s[i] == '.' {
        spec_split_rec(s, i + 1, i + 1, acc.push(s.subrange(start, i)))
    } else {
        spec_split_rec(s, i + 1, start, acc)
    }
}

pub open spec fn spec_split_domain(s: Seq<char>) -> Seq<Seq<char>> {
    spec_split_rec(s, 0, 0, Seq::empty())
}

/// The labels of a dotted domain name: each segment with its character
/// count (truncated to a byte, as the length field is one byte wide).
pub open spec fn spec_labels_of_domain(s: Seq<char>) -> Seq<(u8, Seq<char>)> {
    spec_split_domain(s).map(|i: int, seg: Seq<char>| (seg.len() as u8, seg))
}

/// The dotted domain name of a label sequence: the texts joined with `'.'`.
pub open spec fn spec_join_labels(ls: Seq<(u8, Seq<char>)>) -> Seq<char>
    decreases ls.len(),
{
    if ls.len() == 0 {
        Seq::empty()
    } else if ls.len() == 1 {
        ls[0].1
    } else {
        ls[0].1 + seq!['.'] + spec_join_labels(ls.drop_first())
    }
}

/// The segments joined back with `'.'`, lengths playing no part.
pub open spec fn spec_join_segments(segs: Seq<Seq<char>>) -> Seq<char>
    decreases segs.len(),
{
    if segs.len() == 0 {
        Seq::empty()
    } else if segs.len() == 1 {
        segs[0]
    } else {
        segs[0] + seq!['.'] + spec_join_segments(segs.drop_first())
    }
}

/// Joining one more segment appends a dot and the segment.
proof fn lemma_join_segments_push(segs: Seq<Seq<char>>, seg: Seq<char>)
    requires
        segs.len() >= 1,
    ensures
        spec_join_segments(segs.push(seg)) == spec_join_segments(segs) + seq!['.'] + seg,
    decreases segs.len(),
{
    if segs.len() == 1 {
        assert(segs.push(seg)[0] == segs[0]);
        assert(segs.push(seg).drop_first() =~= seq![seg]);
        assert(spec_join_segments(seq![seg]) == seg);
    } else {
        assert(segs.push(seg)[0] == segs[0]);
        assert(segs.push(seg).drop_first() =~= segs.drop_first().push(seg));
        lemma_join_segments_push(segs.drop_first(), seg);
        assert(segs[0] + seq!['.'] + (spec_join_segments(segs.drop_first()) + seq!['.'] + seg) =~= (
        segs[0] + seq!['.'] + spec_join_segments(segs.drop_first())) + seq!['.'] + seg);
    }
}

/// The labels of a domain join to what its segments join to: the length
/// bytes play no part in joining.
proof fn lemma_join_labels_is_join_segments(segs: Seq<Seq<char>>)
    ensures
        spec_join_labels(segs.map(|i: int, seg: Seq<char>| (seg.len() as u8, seg)))
            == spec_join_segments(segs),
    decreases segs.len(),
{
    let relabel = |i: int, seg: Seq<char>| (seg.len() as u8, seg);
    if segs.len() >= 2 {
        assert(segs.map(relabel).drop_first() =~= segs.drop_first().map(relabel));
        lemma_join_labels_is_join_segments(segs.drop_first());
    }
}

/// What the rest of the splitting loop yields, joined: the suffix from the
/// current segment's start, after whatever was accumulated.
proof fn lemma_join_split_rec(s: Seq<char>, i: int, start: int, acc: Seq<Seq<char>>)
    requires
        0 <= start <= i <= s.len(),
    ensures
        acc.len() == 0 ==> spec_join_segments(spec_split_rec(s, i, start, acc)) == s.subrange(
            start,
            s.len() as int,
        ),
        acc.len() > 0 ==> spec_join_segments(spec_split_rec(s, i, start, acc))
            == spec_join_segments(acc) + seq!['.'] + s.subrange(start, s.len() as int),
    decreases s.len() - i,
{
    if i >= s.len() {
        let seg = s.subrange(start, s.len() as int);
        if acc.len() == 0 {
            assert(spec_join_segments(acc.push(seg)) == seg);
        } else {
            lemma_join_segments_push(acc, seg);
        }
    } else if s[i] == '.' {
        let seg = s.subrange(start, i);
        lemma_join_split_rec(s, i + 1, i + 1, acc.push(seg));
        assert(s.subrange(start, s.len() as int) =~= seg + seq!['.'] + s.subrange(
            i + 1,
            s.len() as int,
        ));
        if acc.len() == 0 {
            assert(spec_join_segments(acc.push(seg)) == seg);
        } else {
            lemma_join_segments_push(acc, seg);
        }
    } else {
        lemma_join_split_rec(s, i + 1, start, acc);
    }
}

/// Splitting a domain name on the dots and joining the labels back with
/// dots reproduces the domain, whatever it holds.
pub proof fn lemma_domain_round_trip(s: Seq<char>)
    ensures
        spec_join_labels(spec_labels_of_domain(s)) == s,
{
    lemma_join_labels_is_join_segments(spec_split_domain(s));
    lemma_join_split_rec(s, 0, 0, Seq::empty());
    assert(s.subrange(0, s.len() as int) =~= s);
}

/// Splitting leaves at least as many segments as were accumulated, plus one.
proof fn lemma_split_rec_grows(s: Seq<char>, i: int, start: int, acc: Seq<Seq<char>>)
    ensures
        spec_split_rec(s, i, start, acc).len() >= acc.len() + 1,
    decreases s.len() - i,
{
    if 0 <= i < s.len() {
        if s[i] == '.' {
            lemma_split_rec_grows(s, i + 1, i + 1, acc.push(s.subrange(start, i)));
        } else {
            lemma_split_rec_grows(s, i + 1, start, acc);
        }
    }
}

/// Any domain name splits into at least one label, the empty name included.
pub proof fn lemma_labels_of_domain_nonempty(s: Seq<char>)
    ensures
        spec_labels_of_domain(s).len() >= 1,
{
    lemma_split_rec_grows(s, 0, 0, Seq::empty());
}

/// Splits a domain name on `'.'`; each segment becomes one label in order.
/// No validation: segment lengths are truncated to a byte, and characters
/// outside one byte are kept (they merely will not survive the wire).
pub fn labels_from_string(domain: String) -> (r: Labels)
    ensures
        labels_view(r@) == spec_labels_of_domain(domain@),
        r@.len() >= 1,
{
    let s = domain.as_str();
    let n = s.unicode_len();
    let mut labels: Labels = Vec::new();
    let ghost relabel = |k: int, seg: Seq<char>| (seg.len() as u8, seg);
    let ghost mut segs: Seq<Seq<char>> = Seq::empty();
    let mut start: usize = 0;
    let mut i: usize = 0;
    while i < n
        invariant
            n == s@.len(),
            s@ == domain@,
            0 <= start <= i <= n,
            spec_split_domain(s@) == spec_split_rec(s@, i as int, start as int, segs),
            labels_view(labels@) == segs.map(relabel),
            relabel == (|k: int, seg: Seq<char>| (seg.len() as u8, seg)),
        decreases n - i,
    {
        let c = s.get_char(i);
        if c == '.' {
            let seg = s.substring_char(start, i);
            let ghost old_labels = labels@;
            labels.push((seg.unicode_len() as u8, String::from_str(seg)));
            proof {
                segs = segs.push(seg@);
                assert(labels_view(labels@) =~= labels_view(old_labels).push(
                    (seg@.len() as u8, seg@),
                ));
                assert(labels_view(labels@) =~= segs.map(relabel));
            }
            start = i + 1;
        }
        i = i + 1;
    }
    let seg = s.substring_char(start, n);
    let ghost old_labels = labels@;
    labels.push((seg.unicode_len() as u8, String::from_str(seg)));
    proof {
        segs = segs.push(seg@);
        assert(seg@ =~= s@.subrange(start as int, s@.len() as int));
        assert(labels_view(labels@) =~= labels_view(old_labels).push((seg@.len() as u8, seg@)));
        assert(labels_view(labels@) =~= segs.map(relabel));
        assert(spec_split_domain(s@) == segs);
        assert(labels_view(labels@) =~= spec_labels_of_domain(domain@));
    }
    labels
}

/// Emits, for each label, its length byte followed by its text bytes; the
/// caller appends the terminating zero byte.
pub fn labels_to_bytes(labels: &[(u8, String)]) -> (bytes: Vec<u8>)
    ensures
        bytes@ == spec_labels_bytes(labels_view(labels@)),
{
    let mut bytes: Vec<u8> = Vec::new();
    let mut i: usize = 0;
    while i < labels.len()
        invariant
            i <= labels@.len(),
            bytes@ == spec_labels_bytes(labels_view(labels@.subrange(0, i as int))),
        decreases labels@.len() - i,
    {
        let (len, text) = &labels[i];
        bytes.push(*len);
        let s = text.as_str();
        let m = s.unicode_len();
        let mut k: usize = 0;
        while k < m
            invariant
                m == s@.len(),
                k <= m,
                bytes@ == spec_labels_bytes(labels_view(labels@.subrange(0, i as int))) + seq![
                    *len,
                ] + s@.subrange(0, k as int).map(|j: int, c: char| c as u8),
                i < labels@.len(),
                (*len, *text) == labels@[i as int],
                s@ == text@,
            decreases m - k,
        {
            bytes.push(s.get_char(k) as u8);
            proof {
                assert(s@.subrange(0, k + 1).map(|j: int, c: char| c as u8) =~= s@.subrange(
                    0,
                    k as int,
                ).map(|j: int, c: char| c as u8).push(s@[k as int] as u8));
                assert(bytes@ =~= spec_labels_bytes(labels_view(labels@.subrange(0, i as int)))
                    + seq![*len] + s@.subrange(0, k + 1).map(|j: int, c: char| c as u8));
            }
            k = k + 1;
        }
        proof {
            assert(s@.subrange(0, m as int) =~= s@);
            lemma_labels_bytes_push(
                labels_view(labels@.subrange(0, i as int)),
                label_view(labels@[i as int]),
            );
            assert(labels_view(labels@.subrange(0, i + 1)) =~= labels_view(
                labels@.subrange(0, i as int),
            ).push(label_view(labels@[i as int])));
            assert(bytes@ =~= spec_labels_bytes(labels_view(labels@.subrange(0, i + 1))));
        }
        i = i + 1;
    }
    proof {
        assert(labels@.subrange(0, labels@.len() as int) =~= labels@);
    }
    bytes
}

/// Appending a label appends its wire bytes.
pub proof fn lemma_labels_bytes_push(ls: Seq<(u8, Seq<char>)>, l: (u8, Seq<char>))
    ensures
        spec_labels_bytes(ls.push(l)) == spec_labels_bytes(ls) + spec_label_bytes(l),
    decreases ls.len(),
{
    if ls.len() == 0 {
        assert(ls.push(l)[0] == l);
        assert(ls.push(l).drop_first() =~= Seq::<(u8, Seq<char>)>::empty());
        assert(spec_labels_bytes(Seq::<(u8, Seq<char>)>::empty()) == Seq::<u8>::empty());
        assert(spec_labels_bytes(ls.push(l)) == spec_label_bytes(l) + Seq::<u8>::empty());
        assert(spec_labels_bytes(ls.push(l)) =~= spec_labels_bytes(ls) + spec_label_bytes(l));
    } else {
        assert(ls.push(l)[0] == ls[0]);
        assert(ls.push(l).drop_first() =~= ls.drop_first().push(l));
        lemma_labels_bytes_push(ls.drop_first(), l);
        assert(spec_labels_bytes(ls.push(l)) == spec_label_bytes(ls[0]) + (spec_labels_bytes(
            ls.drop_first(),
        ) + spec_label_bytes(l)));
        assert(spec_label_bytes(ls[0]) + (spec_labels_bytes(ls.drop_first()) + spec_label_bytes(
            l,
        )) =~= (spec_label_bytes(ls[0]) + spec_labels_bytes(ls.drop_first())) + spec_label_bytes(
            l,
        ));
    }
}

/// Appending a label grows the uncompressed size by its length byte plus one.
pub proof fn lemma_labels_size_push(ls: Seq<(u8, Seq<char>)>, l: (u8, Seq<char>))
    ensures
        spec_labels_size(ls.push(l)) == spec_labels_size(ls) + l.0 + 1,
    decreases ls.len(),
{
    assert(ls.push(l)[0] == if ls.len() == 0 {
        l
    } else {
        ls[0]
    });
    if ls.len() == 0 {
        assert(ls.push(l).drop_first() =~= Seq::<(u8, Seq<char>)>::empty());
        assert(spec_labels_size(Seq::<(u8, Seq<char>)>::empty()) == 1);
    } else {
        assert(ls.push(l).drop_first() =~= ls.drop_first().push(l));
        lemma_labels_size_push(ls.drop_first(), l);
    }
}

/// For well-formed labels the uncompressed size is the wire bytes plus the
/// terminator.
pub proof fn lemma_labels_size_is_bytes_len(ls: Seq<(u8, Seq<char>)>)
    requires
        forall|i: int| 0 <= i < ls.len() ==> (#[trigger] ls[i]).1.len() == ls[i].0 as int,
    ensures
        spec_labels_size(ls) == spec_labels_bytes(ls).len() + 1,
    decreases ls.len(),
{
    if ls.len() > 0 {
        assert(ls[0].1.len() == ls[0].0 as int);
        lemma_labels_size_is_bytes_len(ls.drop_first());
    }
}

/// Byte length of an uncompressed encoding of the labels, terminator
/// included: the sum of the announced lengths, plus one byte per label,
/// plus one — used only when sizing newly built (never decoded) messages.
pub fn get_labels_size(labels: &Labels) -> (size: usize)
    requires
        spec_labels_size(labels_view(labels@)) <= usize::MAX,
    ensures
        size == spec_labels_size(labels_view(labels@)),
{
    let mut size: usize = 0;
    let mut i: usize = 0;
    while i < labels.len()
        invariant
            i <= labels@.len(),
            size == spec_labels_size(labels_view(labels@.subrange(0, i as int))) - 1,
            spec_labels_size(labels_view(labels@)) <= usize::MAX,
        decreases labels@.len() - i,
    {
        proof {
            lemma_labels_size_push(
                labels_view(labels@.subrange(0, i as int)),
                label_view(labels@[i as int]),
            );
            assert(labels_view(labels@.subrange(0, i + 1)) =~= labels_view(
                labels@.subrange(0, i as int),
            ).push(label_view(labels@[i as int])));
            assert(labels_view(labels@).subrange(0, i + 1) =~= labels_view(
                labels@.subrange(0, i + 1),
            ));
            lemma_labels_size_prefix_bound(labels_view(labels@), i + 1);
        }
        size = size + labels[i].0 as usize + 1;
        i = i + 1;
    }
    proof {
        assert(labels@.subrange(0, labels@.len() as int) =~= labels@);
    }
    size + 1
}

/// One step of label parsing per recursive call, mirroring the wire rules:
/// read the length byte at `pos`; a byte with both top bits set is a
/// compression pointer whose 14 remaining bits (with the next byte) give an
/// absolute offset to continue from; any other length byte is followed by
/// that many text bytes and at least one more byte, which is examined: a
/// zero there is the terminator and ends the sequence, anything else
/// begins the next label.  `counting` is true until the first pointer is
/// followed: consumed bytes are only counted at the caller's own cursor,
/// plus the two bytes of the first pointer itself.  `jumps` bounds the
/// pointer chain (a chain longer than the buffer can only be a loop).
/// `size` and `acc` accumulate the count and the labels read so far.
pub open spec fn spec_parse_labels(
    buf: Seq<u8>,
    pos: int,
    jumps: nat,
    counting: bool,
    size: int,
    acc: Seq<(u8, Seq<char>)>,
) -> Result<(Seq<(u8, Seq<char>)>, int), DNSError>
    decreases jumps, buf.len() - pos,
{
    if pos < 0 || pos >= buf.len() {
        Err(DNSError::LabelParsingError)
    } else {
        let b = buf[pos];
        if b & COMPRESSION_TAG == COMPRESSION_TAG {
            let size2 = if counting {
                size + 2
            } else {
                size
            };
            if pos + 1 >= buf.len() {
                Err(DNSError::LabelParsingError)
            } else if jumps == 0 {
                Err(DNSError::LabelParsingError)
            } else {
                let target = (b & 0x3F) * 256 + buf[pos + 1];
                if target >= buf.len() {
                    Err(DNSError::LabelParsingError)
                } else {
                    spec_parse_labels(buf, target as int, (jumps - 1) as nat, false, size2, acc)
                }
            }
        } else {
            if pos + 1 + b > buf.len() {
                Err(DNSError::LabelParsingError)
            } else {
                let text = buf.subrange(pos + 1, pos + 1 + b).map(|i: int, byte: u8| byte as char);
                let acc2 = acc.push((b, text));
                let size2 = if counting {
                    size + b + 1
                } else {
                    size
                };
                let peek = pos + 1 + b;
                if peek >= buf.len() {
                    Err(DNSError::LabelParsingError)
                } else if buf[peek] == 0 {
                    Ok(
                        (
                            acc2,
                            if counting {
                                size2 + 1
                            } else {
                                size2
                            },
                        ),
                    )
                } else {
                    spec_parse_labels(buf, peek, jumps, counting, size2, acc2)
                }
            }
        }
    }
}

/// What decoding a label sequence at `offset` of `buf` yields: the labels
/// and the bytes consumed at `offset` itself, or the parse error.
pub open spec fn spec_labels_from_bytes(buf: Seq<u8>, offset: int) -> Result<
    (Seq<(u8, Seq<char>)>, int),
    DNSError,
> {
    spec_parse_labels(buf, offset, buf.len() as nat, true, 0, Seq::empty())
}

/// Decodes the label sequence starting at `offset`, following compression
/// pointers through the whole buffer.  On success also returns the number
/// of bytes the sequence occupies at `offset` itself: once a pointer is
/// followed only the pointer's own two bytes count.  Fails with
/// `LabelParsingError` on a truncated label or pointer, a pointer leading
/// outside the buffer, a missing terminator, or a pointer chain longer
/// than the buffer (which could only loop).
pub fn labels_from_bytes(buffer: &[u8], offset: usize) -> (r: Result<(Labels, usize), DNSError>)
    ensures
        match r {
            Ok((ls, n)) => {
                &&& spec_labels_from_bytes(buffer@, offset as int) == Ok::<_, DNSError>(
                    (labels_view(ls@), n as int),
                )
                &&& offset + n <= buffer@.len()
                &&& n >= 2
                &&& ls@.len() >= 1
            },
            Err(e) => {
                &&& spec_labels_from_bytes(buffer@, offset as int) == Err::<
                    (Seq<(u8, Seq<char>)>, int),
                    _,
                >(e)
                &&& e == DNSError::LabelParsingError
            },
        },
{
    let ghost buf = buffer@;
    let mut labels: Labels = Vec::new();
    let mut pos: usize = offset;
    let mut size: usize = 0;
    let mut counting: bool = true;
    let mut jumps: usize = buffer.len();
    proof {
        assert(labels_view(labels@) =~= Seq::<(u8, Seq<char>)>::empty());
    }
    loop
        invariant
            buffer@ == buf,
            buf.len() <= usize::MAX,
            jumps <= buf.len(),
            counting ==> offset <= pos && size == pos - offset && labels@.len() <= pos - offset,
            !counting ==> offset + size <= buf.len() && size >= 2 && pos < buf.len(),
            spec_labels_from_bytes(buf, offset as int) == spec_parse_labels(
                buf,
                pos as int,
                jumps as nat,
                counting,
                size as int,
                labels_view(labels@),
            ),
        decreases jumps, buf.len() - pos,
    {
        let ghost pre = (pos as int, jumps as nat, counting, size as int, labels_view(labels@));
        if pos >= buffer.len() {
            return Err(DNSError::LabelParsingError);
        }
        let b = buffer[pos];
        if b & COMPRESSION_TAG == COMPRESSION_TAG {
            if pos + 1 >= buffer.len() {
                return Err(DNSError::LabelParsingError);
            }
            if jumps == 0 {
                return Err(DNSError::LabelParsingError);
            }
            let target = ((b & 0x3F) as usize) * 256 + (buffer[pos + 1] as usize);
            if target >= buffer.len() {
                return Err(DNSError::LabelParsingError);
            }
            if counting {
                size = size + 2;
            }
            counting = false;
            jumps = jumps - 1;
            pos = target;
            proof {
                assert(spec_parse_labels(buf, pre.0, pre.1, pre.2, pre.3, pre.4)
                    == spec_parse_labels(
                    buf,
                    pos as int,
                    jumps as nat,
                    counting,
                    size as int,
                    labels_view(labels@),
                ));
            }
        } else {
            let len_b = b as usize;
            if len_b > buffer.len() - (pos + 1) {
                return Err(DNSError::LabelParsingError);
            }
            let mut text = String::new();
            let mut k: usize = 0;
            proof {
                assert(buf.subrange(pos + 1, pos + 1).map(|i: int, byte: u8| byte as char)
                    =~= Seq::<char>::empty());
            }
            while k < len_b
                invariant
                    buffer@ == buf,
                    buf.len() <= usize::MAX,
                    k <= len_b,
                    pos + 1 + len_b <= buf.len(),
                    text@ == buf.subrange(pos + 1, pos + 1 + k).map(
                        |i: int, byte: u8| byte as char,
                    ),
                decreases len_b - k,
            {
                text.push(buffer[pos + 1 + k] as char);
                proof {
                    assert(buf.subrange(pos + 1, pos + 1 + (k + 1)).map(
                        |i: int, byte: u8| byte as char,
                    ) =~= buf.subrange(pos + 1, pos + 1 + k).map(
                        |i: int, byte: u8| byte as char,
                    ).push(buf[pos + 1 + k] as char));
                }
                k = k + 1;
            }
            let ghost old_labels = labels@;
            labels.push((b, text));
            proof {
                assert(labels_view(labels@) =~= labels_view(old_labels).push(
                    (b, buf.subrange(pos + 1, pos + 1 + len_b).map(|i: int, byte: u8| byte as char)),
                ));
            }
            if counting {
                size = size + len_b + 1;
            }
            let peek = pos + 1 + len_b;
            if peek >= buffer.len() {
                return Err(DNSError::LabelParsingError);
            }
            if buffer[peek] == 0 {
                if counting {
                    size = size + 1;
                }
                return Ok((labels, size));
            }
            pos = peek;
            proof {
                assert(spec_parse_labels(buf, pre.0, pre.1, pre.2, pre.3, pre.4)
                    == spec_parse_labels(
                    buf,
                    pos as int,
                    jumps as nat,
                    counting,
                    size as int,
                    labels_view(labels@),
                ));
            }
        }
    }
}

/// Parsing at a position where the buffer holds the uncompressed encoding
/// of a well-formed label sequence followed by the terminating zero byte
/// yields exactly those labels, whatever the pointer budget, whatever was
/// accumulated before, and consumes the encoding's bytes when still
/// counting.
#[verifier::rlimit(40)]
pub proof fn lemma_parse_labels_encoding(
    buf: Seq<u8>,
    pos: int,
    ls: Seq<(u8, Seq<char>)>,
    jumps: nat,
    counting: bool,
    size: int,
    acc: Seq<(u8, Seq<char>)>,
)
    requires
        ls.len() >= 1,
        forall|i: int| 0 <= i < ls.len() ==> label_wf(#[trigger] ls[i]),
        forall|i: int| 1 <= i < ls.len() ==> (#[trigger] ls[i]).0 >= 1,
        0 <= pos,
        pos + spec_labels_bytes(ls).len() + 1 <= buf.len(),
        buf.subrange(pos, pos + spec_labels_bytes(ls).len() + 1) == spec_labels_bytes(ls) + seq![
            0u8,
        ],
    ensures
        spec_parse_labels(buf, pos, jumps, counting, size, acc) == Ok::<_, DNSError>(
            (
                acc + ls,
                size + if counting {
                    spec_labels_bytes(ls).len() + 1
                } else {
                    0
                },
            ),
        ),
    decreases ls.len(),
{
    let l = ls[0];
    let rest = ls.drop_first();
    let enc = spec_labels_bytes(ls);
    let enc_l = spec_label_bytes(l);
    let enc_rest = spec_labels_bytes(rest);
    let whole = enc + seq![0u8];
    let text_bytes = l.1.map(|j: int, c: char| c as u8);
    assert(enc == enc_l + enc_rest);
    assert(enc_l == seq![l.0] + text_bytes);
    assert(label_wf(l));
    assert(l.1.len() == l.0 as int);
    assert(enc_l.len() == 1 + l.0);
    assert(forall|i: int| 0 <= i < whole.len() ==> buf[pos + i] == #[trigger] whole[i]) by {
        assert(forall|i: int|
            0 <= i < whole.len() ==> #[trigger] buf.subrange(pos, pos + enc.len() + 1 as int)[i]
                == buf[pos + i]);
    }
    let b = l.0;
    assert(buf[pos] == b) by {
        assert(buf[pos + 0] == whole[0]);
        assert(whole[0] == enc_l[0]);
    }
    assert(b < 0xC0 ==> (b & 0xC0) != 0xC0) by (bit_vector);
    assert(buf[pos] & COMPRESSION_TAG != COMPRESSION_TAG);
    // the text bytes of the first label sit right after the length byte
    assert forall|i: int| 0 <= i < b implies buf[pos + 1 + i] == #[trigger] text_bytes[i] by {
        assert(buf[pos + (1 + i)] == whole[1 + i]);
        assert(whole[1 + i] == enc_l[1 + i]);
        assert(enc_l[1 + i] == text_bytes[i]);
    }
    // and they decode back to its characters
    let text = buf.subrange(pos + 1, pos + 1 + b).map(|i: int, byte: u8| byte as char);
    assert(text.len() == l.1.len());
    assert forall|i: int| 0 <= i < text.len() implies #[trigger] text[i] == l.1[i] by {
        assert(text[i] == (buf.subrange(pos + 1, pos + 1 + b)[i] as char));
        assert(buf[pos + 1 + i] == text_bytes[i]);
        assert(text_bytes[i] == l.1[i] as u8);
        assert(char_fits(l.1[i]));
        lemma_char_byte_round_trip(l.1[i]);
    }
    assert(text =~= l.1);
    let peek = pos + 1 + b;
    let acc2 = acc.push((b, text));
    if rest.len() == 0 {
        assert(enc.len() == 1 + l.0) by {
            assert(enc_rest == Seq::<u8>::empty());
        }
        assert(buf[peek] == 0) by {
            assert(buf[pos + (1 + b)] == whole[1 + b]);
            assert(whole[1 + b as int] == 0);
        }
        assert(acc2 + rest =~= acc2);
        assert(acc2 =~= acc + ls) by {
            assert(ls =~= seq![l]);
        }
        assert(spec_parse_labels(buf, pos, jumps, counting, size, acc) == Ok::<_, DNSError>(
            (
                acc + ls,
                size + if counting {
                    enc.len() + 1
                } else {
                    0
                },
            ),
        ));
    } else {
        assert(enc_rest == spec_label_bytes(rest[0]) + spec_labels_bytes(rest.drop_first()));
        assert(enc_rest[0] == rest[0].0);
        assert(rest[0] == ls[1]);
        assert(buf[peek] == enc_rest[0]) by {
            assert(buf[pos + (1 + b)] == whole[1 + b]);
            assert(whole[1 + b as int] == enc[1 + b]);
            assert(enc[1 + b as int] == enc_rest[0]);
        }
        assert(buf[peek] != 0);
        let shifted = buf.subrange(peek, peek + enc_rest.len() + 1 as int);
        assert forall|i: int| 0 <= i < enc_rest.len() + 1 implies #[trigger] shifted[i] == (enc_rest
            + seq![0u8])[i] by {
            assert(shifted[i] == buf[peek + i]);
            assert(buf[pos + (1 + b + i)] == whole[1 + b + i]);
            if i < enc_rest.len() {
                assert(whole[1 + b + i] == enc[1 + b + i]);
                assert(enc[1 + b + i] == enc_rest[i]);
            } else {
                assert(whole[1 + b + i] == 0);
            }
        }
        assert(shifted =~= enc_rest + seq![0u8]);
        assert(forall|i: int| 0 <= i < rest.len() ==> label_wf(#[trigger] rest[i])) by {
            assert(forall|i: int| 0 <= i < rest.len() ==> #[trigger] rest[i] == ls[i + 1]);
        }
        assert(forall|i: int| 1 <= i < rest.len() ==> (#[trigger] rest[i]).0 >= 1) by {
            assert(forall|i: int| 0 <= i < rest.len() ==> #[trigger] rest[i] == ls[i + 1]);
        }
        let size2 = if counting {
            size + b + 1
        } else {
            size
        };
        lemma_parse_labels_encoding(buf, peek, rest, jumps, counting, size2, acc2);
        assert(acc2 + rest =~= acc + ls) by {
            assert(ls =~= seq![l] + rest);
        }
        assert(enc.len() == 1 + l.0 + enc_rest.len());
        assert(spec_parse_labels(buf, pos, jumps, counting, size, acc) == spec_parse_labels(
            buf,
            peek,
            jumps,
            counting,
            size2,
            acc2,
        ));
    }
}

/// Decoding the uncompressed encoding of a well-formed label sequence,
/// terminator appended, gives back the labels and consumes the whole
/// encoding.
pub proof fn lemma_labels_round_trip(ls: Seq<(u8, Seq<char>)>)
    requires
        labels_wf(ls),
    ensures
        spec_labels_from_bytes(spec_labels_bytes(ls) + seq![0u8], 0) == Ok::<_, DNSError>(
            (ls, spec_labels_size(ls)),
        ),
{
    let buf = spec_labels_bytes(ls) + seq![0u8];
    assert(buf.subrange(0, spec_labels_bytes(ls).len() + 1 as int) =~= buf);
    lemma_parse_labels_encoding(buf, 0, ls, buf.len() as nat, true, 0, Seq::empty());
    assert(Seq::empty() + ls =~= ls);
    lemma_labels_size_is_bytes_len(ls);
}

/// Label compression: where the buffer holds, at `target`, the
/// uncompressed encoding of a well-formed label sequence with its
/// terminator, and at `ptr_pos` a compression pointer to `target`,
/// decoding at `ptr_pos` yields the same labels as decoding at `target`
/// directly, while consuming only the pointer's own two bytes.
pub proof fn lemma_label_compression(
    buf: Seq<u8>,
    ptr_pos: int,
    target: int,
    ls: Seq<(u8, Seq<char>)>,
)
    requires
        labels_wf(ls),
        0 <= target,
        target + spec_labels_bytes(ls).len() + 1 <= buf.len(),
        buf.subrange(target, target + spec_labels_bytes(ls).len() + 1) == spec_labels_bytes(ls)
            + seq![0u8],
        target < 0x4000,
        0 <= ptr_pos,
        ptr_pos + 2 <= buf.len(),
        buf[ptr_pos] as int == 0xC0 + target / 256,
        buf[ptr_pos + 1] as int == target % 256,
    ensures
        spec_labels_from_bytes(buf, target) == Ok::<_, DNSError>((ls, spec_labels_size(ls))),
        spec_labels_from_bytes(buf, ptr_pos) == Ok::<_, DNSError>((ls, 2int)),
{
    lemma_parse_labels_encoding(buf, target, ls, buf.len() as nat, true, 0, Seq::empty());
    assert(Seq::empty() + ls =~= ls);
    lemma_labels_size_is_bytes_len(ls);
    // the pointer byte carries the compression tag in its top two bits
    let b = buf[ptr_pos];
    let lo = buf[ptr_pos + 1];
    assert(0 <= target / 256 < 0x40 && target / 256 * 256 + target % 256 == target && 0 <= target
        % 256 < 256) by (nonlinear_arith)
        requires
            0 <= target < 0x4000,
    ;
    assert(b >= 0xC0);
    assert(b >= 0xC0 ==> (b & 0xC0) == 0xC0) by (bit_vector);
    assert(b >= 0xC0 ==> (b & 0x3F) as int == b as int - 0xC0) by (bit_vector);
    assert(b & COMPRESSION_TAG == COMPRESSION_TAG);
    assert((b & 0x3F) * 256 + lo == target);
    assert(target < buf.len());
    assert(buf.len() >= 1);
    lemma_parse_labels_encoding(
        buf,
        target,
        ls,
        (buf.len() - 1) as nat,
        false,
        2,
        Seq::empty(),
    );
}

/// The size of a prefix of a label sequence never exceeds the whole size.
proof fn lemma_labels_size_prefix_bound(ls: Seq<(u8, Seq<char>)>, n: int)
    requires
        0 <= n <= ls.len(),
    ensures
        spec_labels_size(ls.subrange(0, n)) <= spec_labels_size(ls),
    decreases ls.len() - n,
{
    if n == ls.len() {
        assert(ls.subrange(0, n) =~= ls);
    } else {
        lemma_labels_size_push(ls.subrange(0, n), ls[n]);
        assert(ls.subrange(0, n + 1) =~= ls.subrange(0, n).push(ls[n]));
        lemma_labels_size_prefix_bound(ls, n + 1);
    }
}

} // verus!
