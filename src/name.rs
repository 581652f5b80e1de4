//! Domain names on the wire: length-prefixed labels ended by a zero byte, or
//! by a compression pointer to an earlier offset of the message.
use vstd::prelude::*;
use vstd::slice::slice_subrange;
use vstd::utf8::{decode_utf8, encode_utf8, valid_utf8};

use crate::wire::{push_bytes, utf8_text, CodecError};

verus! {

/// Largest number of bytes in one label.
pub const MAX_LABEL_LENGTH: usize = 63;

/// What a control byte of a name announces.
#[derive(Debug, Clone, Copy, PartialEq, Eq, Structural)]
pub enum CtrlByte {
    /// A label of this many bytes follows.
    Length(u8),
    /// The name goes on at this offset of the message.
    Ptr(u16),
    /// The name ends.
    Null,
}

/// Offset held by the pointer whose two bytes are `b0` and `b1`.
pub open spec fn ptr_target(b0: u8, b1: u8) -> u16 {
    ((b0 as int % 64) * 256 + b1 as int) as u16
}

/// Reading the control field at `pos`: a zero byte ends the name, a byte with
/// its two top bits set starts a two-byte pointer, 1..=63 is a label length,
/// and anything else is refused.
pub open spec fn spec_ctrl_at(src: Seq<u8>, pos: int) -> Result<(CtrlByte, int), CodecError> {
    if pos < 0 || pos >= src.len() {
        Err(CodecError::UnexpectedEof)
    } else if src[pos] == 0 {
        Ok((CtrlByte::Null, pos + 1))
    } else if src[pos] >= 0xC0 {
        if pos + 1 >= src.len() {
            Err(CodecError::UnexpectedEof)
        } else {
            Ok((CtrlByte::Ptr(ptr_target(src[pos], src[pos + 1])), pos + 2))
        }
    } else if src[pos] > 63 {
        Err(CodecError::InvalidLabelLength)
    } else {
        Ok((CtrlByte::Length(src[pos]), pos + 1))
    }
}

/// Puts `acc` in front of the labels of a successful read.
pub open spec fn prepend(
    acc: Seq<Seq<char>>,
    r: Result<(Seq<Seq<char>>, int), CodecError>,
) -> Result<(Seq<Seq<char>>, int), CodecError> {
    match r {
        Ok((ls, end)) => Ok((acc + ls, end)),
        Err(e) => Err(e),
    }
}

/// The labels of the name whose control field is at `pos`, in a run of
/// labels that began at `start`, with the end of the name in that run.
///
/// A pointer ends the run and continues the name at its target, which must
/// lie before `start`: each jump goes strictly backwards, so no chain of
/// pointers loops. What is read past a pointer does not move the end.
pub open spec fn spec_labels(src: Seq<u8>, start: nat, pos: int) -> Result<(Seq<Seq<char>>, int), CodecError>
    decreases start, src.len() - pos,
{
    match spec_ctrl_at(src, pos) {
        Err(e) => Err(e),
        Ok((CtrlByte::Null, end)) => Ok((seq![], end)),
        Ok((CtrlByte::Ptr(target), end)) => {
            if target >= start {
                Err(CodecError::MalformedPointer)
            } else {
                match spec_labels(src, target as nat, target as int) {
                    Ok((ls, _)) => Ok((ls, end)),
                    Err(e) => Err(e),
                }
            }
        },
        Ok((CtrlByte::Length(n), next)) => {
            if next + n > src.len() {
                Err(CodecError::UnexpectedEof)
            } else if !valid_utf8(src.subrange(next, next + n)) {
                Err(CodecError::Utf8DecodeError)
            } else {
                prepend(seq![decode_utf8(src.subrange(next, next + n))], spec_labels(src, start, next + n))
            }
        },
    }
}

/// Labels joined with dots.
pub open spec fn join_labels(ls: Seq<Seq<char>>) -> Seq<char>
    decreases ls.len(),
{
    if ls.len() == 0 {
        seq![]
    } else if ls.len() == 1 {
        ls[0]
    } else {
        join_labels(ls.drop_last()) + seq!['.'] + ls.last()
    }
}

/// Decoding the name that starts at `pos`: the dotted name, and the offset
/// just past its encoding in the stream that holds it.
pub open spec fn spec_name_at(src: Seq<u8>, pos: int) -> Result<(Seq<char>, int), CodecError> {
    if pos < 0 {
        Err(CodecError::UnexpectedEof)
    } else {
        match spec_labels(src, pos as nat, pos) {
            Ok((ls, end)) => Ok((join_labels(ls), end)),
            Err(e) => Err(e),
        }
    }
}

pub fn read_ctrl_at(src: &[u8], pos: usize) -> (r: Result<(CtrlByte, usize), CodecError>)
    ensures
        crate::wire::widen(r) == spec_ctrl_at(src@, pos as int),
{
    if pos >= src.len() {
        return Err(CodecError::UnexpectedEof);
    }
    let c = src[pos];
    if c == 0 {
        Ok((CtrlByte::Null, pos + 1))
    } else if c >= 0xC0 {
        if pos + 1 >= src.len() {
            Err(CodecError::UnexpectedEof)
        } else {
            let target: u16 = (c % 64) as u16 * 256 + src[pos + 1] as u16;
            Ok((CtrlByte::Ptr(target), pos + 2))
        }
    } else if c > 63 {
        Err(CodecError::InvalidLabelLength)
    } else {
        Ok((CtrlByte::Length(c), pos + 1))
    }
}

/// Reads the labels of a run that began at `start`, from the control field at
/// `pos`, appending each to `tokens`; returns the end of the name in the run.
pub fn decode_labels(src: &[u8], start: usize, pos: usize, tokens: &mut Vec<String>) -> (r: Result<usize, CodecError>)
    ensures
        match spec_labels(src@, start as nat, pos as int) {
            Ok((ls, end)) => r is Ok && r->Ok_0 == end && final(tokens).deep_view() == old(tokens).deep_view() + ls,
            Err(e) => r == Err::<usize, CodecError>(e),
        },
    decreases start, src@.len() - pos,
{
    let ghost acc: Seq<Seq<char>> = seq![];
    let mut p = pos;
    loop
        invariant
            pos <= p,
            tokens.deep_view() == old(tokens).deep_view() + acc,
            spec_labels(src@, start as nat, pos as int) == prepend(acc, spec_labels(src@, start as nat, p as int)),
        decreases src@.len() - p,
    {
        let (ctrl, next) = read_ctrl_at(src, p)?;
        match ctrl {
            CtrlByte::Null => {
                assert(acc + seq![] =~= acc);
                return Ok(next);
            },
            CtrlByte::Ptr(target) => {
                if target as usize >= start {
                    return Err(CodecError::MalformedPointer);
                }
                decode_labels(src, target as usize, target as usize, tokens)?;
                return Ok(next);
            },
            CtrlByte::Length(n) => {
                if src.len() - next < n as usize {
                    return Err(CodecError::UnexpectedEof);
                }
                let label = slice_subrange(src, next, next + n as usize);
                match utf8_text(label) {
                    None => {
                        return Err(CodecError::Utf8DecodeError);
                    },
                    Some(text) => {
                        let token = text.to_owned();
                        let ghost old_dv = tokens.deep_view();
                        tokens.push(token);
                        proof {
                            let l = decode_utf8(src@.subrange(next as int, next + n));
                            assert(tokens.deep_view() =~= old_dv.push(l));
                            assert(acc + seq![l] + spec_labels(src@, start as nat, next + n)->Ok_0.0
                                =~= acc + (seq![l] + spec_labels(src@, start as nat, next + n)->Ok_0.0));
                            acc = acc + seq![l];
                        }
                        p = next + n as usize;
                    },
                }
            },
        }
    }
}

/// A decoded run of labels ends after where it began and within the message.
pub proof fn lemma_labels_end(src: Seq<u8>, start: nat, pos: int)
    ensures
        spec_labels(src, start, pos) is Ok ==> pos < spec_labels(src, start, pos)->Ok_0.1 <= src.len(),
    decreases start, src.len() - pos,
{
    match spec_ctrl_at(src, pos) {
        Ok((CtrlByte::Length(n), next)) => {
            if next + n <= src.len() {
                lemma_labels_end(src, start, next + n);
            }
        },
        _ => {},
    }
}

/// A decoded name ends after where it began and within the message.
pub proof fn lemma_name_end(src: Seq<u8>, pos: int)
    ensures
        spec_name_at(src, pos) is Ok ==> pos < spec_name_at(src, pos)->Ok_0.1 <= src.len(),
{
    if pos >= 0 {
        lemma_labels_end(src, pos as nat, pos);
    }
}

/// The name that decoding an encoded `s` gives: its non-empty labels joined
/// with dots.
pub open spec fn normal_name(s: Seq<char>) -> Seq<char> {
    join_labels(labels_of(s))
}

/// A name in its own normal form: no label is empty, unless the whole name is.
pub open spec fn plain_name(s: Seq<char>) -> bool {
    s.len() == 0 || forall|k: int| 0 <= k < split_dots(s).len() ==> (#[trigger] split_dots(s)[k]).len() > 0
}

/// No label holds a dot.
pub open spec fn dot_free(ls: Seq<Seq<char>>) -> bool {
    forall|k: int, i: int| 0 <= k < ls.len() && 0 <= i < ls[k].len() ==> #[trigger] ls[k][i] != '.'
}

/// No label is empty.
pub open spec fn all_nonempty(ls: Seq<Seq<char>>) -> bool {
    forall|k: int| 0 <= k < ls.len() ==> (#[trigger] ls[k]).len() > 0
}

/// Joining the pieces of `s` at its dots gives `s` back.
pub proof fn lemma_join_split(s: Seq<char>)
    ensures
        join_labels(split_dots(s)) == s,
    decreases s.len(),
{
    if s.len() > 0 {
        let t = s.drop_last();
        lemma_join_split(t);
        lemma_split_dots_len(t);
        let p = split_dots(t);
        if s.last() == '.' {
            assert(p.push(seq![]).drop_last() =~= p);
            assert(s =~= t + seq!['.'] + seq![]);
        } else {
            let q = p.update(p.len() - 1, p.last().push(s.last()));
            if p.len() == 1 {
                assert(s =~= p[0].push(s.last()));
            } else {
                assert(q.drop_last() =~= p.drop_last());
                assert(q.last() == p.last().push(s.last()));
                assert(join_labels(p) == join_labels(p.drop_last()) + seq!['.'] + p.last());
                assert(join_labels(q) == join_labels(q.drop_last()) + seq!['.'] + q.last());
                assert(s =~= t.push(s.last()));
                assert(s =~= join_labels(p.drop_last()) + seq!['.'] + p.last().push(s.last()));
            }
        }
    }
}

/// `nonempty` keeps a sequence without empty members as it is.
pub proof fn lemma_nonempty_id(ls: Seq<Seq<char>>)
    requires
        all_nonempty(ls),
    ensures
        nonempty(ls) == ls,
    decreases ls.len(),
{
    if ls.len() > 0 {
        lemma_nonempty_id(ls.drop_last());
        assert(ls.drop_last().push(ls.last()) =~= ls);
    }
}

/// What `nonempty` keeps is non-empty and comes from `ls`.
pub proof fn lemma_nonempty_members(ls: Seq<Seq<char>>)
    ensures
        all_nonempty(nonempty(ls)),
        dot_free(ls) ==> dot_free(nonempty(ls)),
    decreases ls.len(),
{
    if ls.len() > 0 {
        lemma_nonempty_members(ls.drop_last());
        let r = nonempty(ls.drop_last());
        if dot_free(ls) {
            assert(dot_free(ls.drop_last())) by {
                assert forall|k: int, i: int| 0 <= k < ls.drop_last().len() && 0 <= i < ls.drop_last()[k].len()
                    implies #[trigger] ls.drop_last()[k][i] != '.' by {
                    assert(ls.drop_last()[k] == ls[k]);
                }
            }
            if ls.last().len() > 0 {
                assert forall|k: int, i: int| 0 <= k < r.push(ls.last()).len() && 0 <= i < r.push(ls.last())[k].len()
                    implies #[trigger] r.push(ls.last())[k][i] != '.' by {
                    if k < r.len() {
                        assert(r.push(ls.last())[k] == r[k]);
                    } else {
                        assert(ls.last() == ls[ls.len() - 1]);
                    }
                }
            }
        }
        if ls.last().len() > 0 {
            assert forall|k: int| 0 <= k < r.push(ls.last()).len() implies (#[trigger] r.push(ls.last())[k]).len() > 0 by {
                if k < r.len() {
                    assert(r.push(ls.last())[k] == r[k]);
                }
            }
        }
    }
}

/// The pieces of `s` hold no dot.
pub proof fn lemma_split_dot_free(s: Seq<char>)
    ensures
        dot_free(split_dots(s)),
    decreases s.len(),
{
    if s.len() > 0 {
        let t = s.drop_last();
        lemma_split_dot_free(t);
        lemma_split_dots_len(t);
        let p = split_dots(t);
        if s.last() == '.' {
            assert forall|k: int, i: int| 0 <= k < p.push(seq![]).len() && 0 <= i < p.push(seq![])[k].len()
                implies #[trigger] p.push(seq![])[k][i] != '.' by {
                assert(p.push(seq![])[k] == p[k]);
            }
        } else {
            let q = p.update(p.len() - 1, p.last().push(s.last()));
            assert forall|k: int, i: int| 0 <= k < q.len() && 0 <= i < q[k].len() implies #[trigger] q[k][i] != '.' by {
                if k < p.len() - 1 {
                    assert(q[k] == p[k]);
                } else if i < p.last().len() {
                    assert(q[k][i] == p[p.len() - 1][i]);
                }
            }
        }
    }
}

/// Appending dot-free characters to `s` only grows its last piece.
pub proof fn lemma_split_append(s: Seq<char>, l: Seq<char>)
    requires
        forall|i: int| 0 <= i < l.len() ==> #[trigger] l[i] != '.',
    ensures
        split_dots(s + l) == split_dots(s).update(split_dots(s).len() - 1, split_dots(s).last() + l),
    decreases l.len(),
{
    lemma_split_dots_len(s);
    let p = split_dots(s);
    if l.len() == 0 {
        assert(s + l =~= s);
        assert(p.last() + l =~= p.last());
        assert(p.update(p.len() - 1, p.last()) =~= p);
    } else {
        let l0 = l.drop_last();
        lemma_split_append(s, l0);
        assert((s + l).drop_last() =~= s + l0);
        assert((s + l).last() == l[l.len() - 1]);
        let q = p.update(p.len() - 1, p.last() + l0);
        assert(q.last() == p.last() + l0);
        assert((p.last() + l0).push(l.last()) =~= p.last() + l);
        assert(q.update(q.len() - 1, q.last().push(l.last())) =~= p.update(p.len() - 1, p.last() + l));
    }
}

/// The empty name has no labels.
pub proof fn lemma_labels_of_empty()
    ensures
        labels_of(Seq::<char>::empty()) == Seq::<Seq<char>>::empty(),
{
    let e = Seq::<char>::empty();
    let one = split_dots(e);
    assert(one =~= seq![e]);
    assert(one.drop_last() =~= Seq::<Seq<char>>::empty());
    assert(one.last().len() == 0);
    assert(nonempty(one) == nonempty(one.drop_last()));
}

/// Splitting labels joined with dots gives the labels back, when none holds
/// a dot.
pub proof fn lemma_split_join(ls: Seq<Seq<char>>)
    requires
        ls.len() > 0,
        dot_free(ls),
    ensures
        split_dots(join_labels(ls)) == ls,
    decreases ls.len(),
{
    let l = ls.last();
    assert forall|i: int| 0 <= i < l.len() implies #[trigger] l[i] != '.' by {
        assert(l == ls[ls.len() - 1]);
        assert(ls[ls.len() - 1][i] != '.');
    }
    if ls.len() == 1 {
        lemma_split_append(seq![], l);
        assert(seq![] + l =~= l);
        assert(split_dots(seq![]) =~= seq![seq![]]);
        assert(seq![] + l =~= l);
        assert(seq![seq![]].update(0, Seq::<char>::empty() + l) =~= ls);
    } else {
        let init = ls.drop_last();
        assert(dot_free(init)) by {
            assert forall|k: int, i: int| 0 <= k < init.len() && 0 <= i < init[k].len() implies #[trigger] init[k][i] != '.' by {
                assert(init[k] == ls[k]);
            }
        }
        lemma_split_join(init);
        let x = join_labels(init) + seq!['.'];
        assert(x.drop_last() =~= join_labels(init));
        lemma_split_dots_len(join_labels(init));
        lemma_split_append(x, l);
        assert(join_labels(ls) == x + l);
        assert(split_dots(x) == init.push(seq![]));
        assert(Seq::<char>::empty() + l =~= l);
        assert(init.push(seq![]).update(init.len() as int, Seq::<char>::empty() + l) =~= ls);
    }
}

/// The labels of a name decoded from labels that are non-empty and hold no
/// dot are those labels.
pub proof fn lemma_labels_of_join(ls: Seq<Seq<char>>)
    requires
        all_nonempty(ls),
        dot_free(ls),
    ensures
        labels_of(join_labels(ls)) == ls,
{
    if ls.len() == 0 {
        lemma_labels_of_empty();
        assert(join_labels(ls) =~= Seq::<char>::empty());
    } else {
        lemma_split_join(ls);
        lemma_nonempty_id(ls);
    }
}

/// Normalising a name does not change how it encodes, and a plain name is
/// its own normal form.
pub proof fn lemma_normal_name(s: Seq<char>)
    ensures
        labels_of(normal_name(s)) == labels_of(s),
        spec_encode_name(normal_name(s)) == spec_encode_name(s),
        plain_name(s) ==> normal_name(s) == s,
{
    lemma_split_dot_free(s);
    lemma_nonempty_members(split_dots(s));
    lemma_labels_of_join(labels_of(s));
    if plain_name(s) {
        if s.len() == 0 {
            lemma_labels_of_empty();
            assert(s =~= Seq::<char>::empty());
            assert(normal_name(s) =~= s);
        } else {
            assert(all_nonempty(split_dots(s)));
            lemma_nonempty_id(split_dots(s));
            lemma_join_split(s);
        }
    }
}

/// A non-empty label encodes to at least one byte.
proof fn lemma_encode_nonempty(l: Seq<char>)
    requires
        l.len() > 0,
    ensures
        encode_utf8(l).len() > 0,
{
    assert(encode_utf8(l) == vstd::utf8::encode_scalar(l[0] as u32) + encode_utf8(l.drop_first()));
}

/// Labels as the encoder writes them read back as the same labels.
pub proof fn lemma_decode_labels_wire(src: Seq<u8>, start: nat, pos: int, ls: Seq<Seq<char>>)
    requires
        all_nonempty(ls),
        labels_fit(ls),
        0 <= pos,
        pos + labels_wire(ls).len() <= src.len(),
        src.subrange(pos, pos + labels_wire(ls).len()) == labels_wire(ls),
    ensures
        spec_labels(src, start, pos) == prepend(ls, spec_labels(src, start, pos + labels_wire(ls).len())),
    decreases ls.len(),
{
    broadcast use vstd::utf8::encode_utf8_valid_utf8, vstd::utf8::encode_utf8_decode_utf8;

    if ls.len() == 0 {
        let r = spec_labels(src, start, pos);
        if r is Ok {
            assert(Seq::<Seq<char>>::empty() + r->Ok_0.0 =~= r->Ok_0.0);
        }
    } else {
        let init = ls.drop_last();
        let l = ls.last();
        assert(all_nonempty(init)) by {
            assert forall|k: int| 0 <= k < init.len() implies (#[trigger] init[k]).len() > 0 by {
                assert(init[k] == ls[k]);
            }
        }
        assert(labels_fit(init)) by {
            assert forall|k: int| 0 <= k < init.len() implies (#[trigger] encode_utf8(init[k])).len() <= MAX_LABEL_LENGTH by {
                assert(init[k] == ls[k]);
            }
        }
        assert(l == ls[ls.len() - 1]);
        let w = labels_wire(init);
        let q = pos + w.len();
        assert(labels_wire(ls) == w + label_wire(l));
        let big = labels_wire(ls);
        assert forall|i: int| 0 <= i < w.len() implies #[trigger] src.subrange(pos, q)[i] == w[i] by {
            assert(src[pos + i] == src.subrange(pos, pos + big.len())[i]);
            assert(big[i] == w[i]);
        }
        assert(src.subrange(pos, q) =~= w);
        lemma_decode_labels_wire(src, start, pos, init);
        let e = encode_utf8(l);
        let n = e.len();
        lemma_encode_nonempty(l);
        assert(src[q] == src.subrange(pos, pos + big.len())[w.len() as int]);
        assert(big[w.len() as int] == label_wire(l)[0]);
        assert(src[q] == n as u8);
        assert(src.subrange(q + 1, q + 1 + n) =~= e) by {
            assert forall|i: int| 0 <= i < n implies #[trigger] src.subrange(q + 1, q + 1 + n)[i] == e[i] by {
                assert(src[q + 1 + i] == src.subrange(pos, pos + big.len())[w.len() + 1 + i]);
                assert(labels_wire(ls)[w.len() + 1 + i] == label_wire(l)[1 + i]);
            }
        }
        assert(spec_ctrl_at(src, q) == Ok::<(CtrlByte, int), CodecError>((CtrlByte::Length(n as u8), q + 1)));
        let rest = spec_labels(src, start, q + 1 + n);
        assert(spec_labels(src, start, q) == prepend(seq![l], rest));
        if rest is Ok {
            assert(init + (seq![l] + rest->Ok_0.0) =~= ls + rest->Ok_0.0);
        }
    }
}

/// Decoding the encoding of `s`, wherever in a message it stands, gives the
/// normal form of `s` and ends just past the encoding.
pub proof fn lemma_decode_encoded_name(src: Seq<u8>, pos: int, s: Seq<char>)
    requires
        spec_encode_name(s) is Ok,
        0 <= pos,
        pos + spec_encode_name(s)->Ok_0.len() <= src.len(),
        src.subrange(pos, pos + spec_encode_name(s)->Ok_0.len()) == spec_encode_name(s)->Ok_0,
    ensures
        spec_name_at(src, pos) == Ok::<(Seq<char>, int), CodecError>((normal_name(s), pos + spec_encode_name(s)->Ok_0.len())),
{
    let ls = labels_of(s);
    let b = spec_encode_name(s)->Ok_0;
    let w = labels_wire(ls);
    lemma_nonempty_members(split_dots(s));
    assert(src.subrange(pos, pos + w.len()) =~= b.subrange(0, w.len() as int));
    assert(b.subrange(0, w.len() as int) =~= w);
    lemma_decode_labels_wire(src, pos as nat, pos, ls);
    assert(src[pos + w.len()] == b[w.len() as int]);
    assert(spec_labels(src, pos as nat, pos + w.len()) == Ok::<(Seq<Seq<char>>, int), CodecError>((seq![], pos + w.len() + 1)));
    assert(ls + seq![] =~= ls);
}

/// A compression pointer at the start of a name is followed to its target,
/// and every pointer met there is followed in turn until a zero byte ends the
/// name; the name still ends just past the first pointer's two bytes.
pub proof fn lemma_pointer_followed(src: Seq<u8>, pos: int)
    requires
        0 <= pos,
        pos + 1 < src.len(),
        src[pos] >= 0xC0,
        ptr_target(src[pos], src[pos + 1]) < pos,
    ensures
        spec_name_at(src, pos) == ({
            let t = ptr_target(src[pos], src[pos + 1]);
            match spec_labels(src, t as nat, t as int) {
                Ok((ls, _)) => Ok::<(Seq<char>, int), CodecError>((join_labels(ls), pos + 2)),
                Err(e) => Err(e),
            }
        }),
{
}

/// A name that starts with a pointer to its own offset or to a later one is
/// refused, and decoding it stops.
pub proof fn lemma_malformed_pointer(src: Seq<u8>, pos: int)
    requires
        0 <= pos,
        pos + 1 < src.len(),
        src[pos] >= 0xC0,
        ptr_target(src[pos], src[pos + 1]) >= pos,
    ensures
        spec_name_at(src, pos) == Err::<(Seq<char>, int), CodecError>(CodecError::MalformedPointer),
{
}

/// Decodes the name at `pos` of the message `src`, following pointers.
pub fn read_name_at(src: &[u8], pos: usize) -> (r: Result<(String, usize), CodecError>)
    ensures
        match r {
            Ok((name, end)) => spec_name_at(src@, pos as int) == Ok::<(Seq<char>, int), CodecError>((name@, end as int)),
            Err(e) => spec_name_at(src@, pos as int) == Err::<(Seq<char>, int), CodecError>(e),
        },
{
    let mut tokens: Vec<String> = Vec::new();
    let end = decode_labels(src, pos, pos, &mut tokens)?;
    proof {
        assert(tokens.deep_view() =~= Seq::<Seq<char>>::empty() + tokens.deep_view());
    }
    let name = join_tokens(&tokens);
    Ok((name, end))
}

/// Joins `tokens` with dots.
pub fn join_tokens(tokens: &Vec<String>) -> (r: String)
    ensures
        r@ == join_labels(tokens.deep_view()),
{
    let mut name = String::new();
    let mut i: usize = 0;
    while i < tokens.len()
        invariant
            i <= tokens@.len(),
            name@ == join_labels(tokens.deep_view().subrange(0, i as int)),
        decreases tokens@.len() - i,
    {
        let ghost before = tokens.deep_view().subrange(0, i as int);
        if i > 0 {
            let dot = ".";
            proof {
                reveal_strlit(".");
            }
            name.append(dot);
        }
        name.append(tokens[i].as_str());
        proof {
            let now = tokens.deep_view().subrange(0, i + 1);
            assert(now.drop_last() =~= before);
            if i == 0 {
                assert(name@ =~= now[0]);
            }
        }
        i = i + 1;
    }
    assert(tokens.deep_view().subrange(0, tokens@.len() as int) =~= tokens.deep_view());
    name
}

/// The dot-separated pieces of `s`, empty ones included.
pub open spec fn split_dots(s: Seq<char>) -> Seq<Seq<char>>
    decreases s.len(),
{
    if s.len() == 0 {
        seq![seq![]]
    } else {
        let p = split_dots(s.drop_last());
        if s.last() == '.' {
            p.push(seq![])
        } else {
            p.update(p.len() - 1, p.last().push(s.last()))
        }
    }
}

/// The non-empty members of `ls`, in order.
pub open spec fn nonempty(ls: Seq<Seq<char>>) -> Seq<Seq<char>>
    decreases ls.len(),
{
    if ls.len() == 0 {
        seq![]
    } else if ls.last().len() > 0 {
        nonempty(ls.drop_last()).push(ls.last())
    } else {
        nonempty(ls.drop_last())
    }
}

/// The labels that encoding `s` emits: its non-empty dot-separated pieces.
pub open spec fn labels_of(s: Seq<char>) -> Seq<Seq<char>> {
    nonempty(split_dots(s))
}

/// One label on the wire: its UTF-8 length, then its UTF-8 bytes.
pub open spec fn label_wire(l: Seq<char>) -> Seq<u8> {
    seq![encode_utf8(l).len() as u8] + encode_utf8(l)
}

/// Labels on the wire, without the closing zero byte.
pub open spec fn labels_wire(ls: Seq<Seq<char>>) -> Seq<u8>
    decreases ls.len(),
{
    if ls.len() == 0 {
        seq![]
    } else {
        labels_wire(ls.drop_last()) + label_wire(ls.last())
    }
}

/// Every label fits in 63 bytes.
pub open spec fn labels_fit(ls: Seq<Seq<char>>) -> bool {
    forall|k: int| 0 <= k < ls.len() ==> (#[trigger] encode_utf8(ls[k])).len() <= MAX_LABEL_LENGTH
}

/// Encoding the dotted name `s`: each non-empty label with its length, then
/// a zero byte; refused when a label is longer than 63 bytes.
pub open spec fn spec_encode_name(s: Seq<char>) -> Result<Seq<u8>, CodecError> {
    if labels_fit(labels_of(s)) {
        Ok(labels_wire(labels_of(s)) + seq![0u8])
    } else {
        Err(CodecError::InvalidLabelLength)
    }
}

/// `split_dots` always yields at least one piece.
pub proof fn lemma_split_dots_len(s: Seq<char>)
    ensures
        split_dots(s).len() >= 1,
    decreases s.len(),
{
    if s.len() > 0 {
        lemma_split_dots_len(s.drop_last());
    }
}

proof fn lemma_fit_push(ls: Seq<Seq<char>>, l: Seq<char>)
    ensures
        labels_fit(ls.push(l)) == (labels_fit(ls) && encode_utf8(l).len() <= MAX_LABEL_LENGTH),
{
    if labels_fit(ls.push(l)) {
        assert forall|k: int| 0 <= k < ls.len() implies (#[trigger] encode_utf8(ls[k])).len() <= MAX_LABEL_LENGTH by {
            assert(ls.push(l)[k] == ls[k]);
        }
        assert(ls.push(l)[ls.len() as int] == l);
    }
    if labels_fit(ls) && encode_utf8(l).len() <= MAX_LABEL_LENGTH {
        assert forall|k: int| 0 <= k < ls.push(l).len() implies (#[trigger] encode_utf8(ls.push(l)[k])).len() <= MAX_LABEL_LENGTH by {
            if k < ls.len() {
                assert(ls.push(l)[k] == ls[k]);
            }
        }
    }
}

/// One step of `nonempty` on a sequence that has just grown by `l`.
proof fn lemma_nonempty_push(ls: Seq<Seq<char>>, l: Seq<char>)
    ensures
        nonempty(ls.push(l)) == if l.len() > 0 { nonempty(ls).push(l) } else { nonempty(ls) },
{
    assert(ls.push(l).drop_last() =~= ls);
}

/// Appends the wire form of the label `name[from..to]` when it is not empty;
/// false when the label does not fit in 63 bytes.
fn push_label(name: &str, from: usize, to: usize, out: &mut Vec<u8>) -> (r: bool)
    requires
        from <= to <= name@.len(),
    ensures
        r == (encode_utf8(name@.subrange(from as int, to as int)).len() <= MAX_LABEL_LENGTH),
        r ==> final(out)@ == old(out)@ + if to > from { label_wire(name@.subrange(from as int, to as int)) } else { seq![] },
{
    let label = name.substring_char(from, to);
    let bytes = label.as_bytes();
    if bytes.len() > MAX_LABEL_LENGTH {
        return false;
    }
    if to > from {
        out.push(bytes.len() as u8);
        push_bytes(out, bytes);
        assert(final(out)@ =~= old(out)@ + label_wire(name@.subrange(from as int, to as int)));
    } else {
        assert(out@ =~= old(out)@ + seq![]);
    }
    true
}

/// Appends the wire form of the dotted name `name` to `out`.
pub fn encode_name(name: &str, out: &mut Vec<u8>) -> (r: Result<(), CodecError>)
    ensures
        match spec_encode_name(name@) {
            Ok(b) => r is Ok && final(out)@ == old(out)@ + b,
            Err(e) => r == Err::<(), CodecError>(e),
        },
{
    let n = name.unicode_len();
    let mut i: usize = 0;
    let mut from: usize = 0;
    let mut fits = true;
    proof {
        assert(name@.subrange(0, 0) =~= seq![]);
        assert(seq![seq![]].drop_last() =~= Seq::<Seq<char>>::empty());
        assert(old(out)@ + seq![] =~= old(out)@);
    }
    while i < n
        invariant
            n == name@.len(),
            from <= i <= n,
            split_dots(name@.subrange(0, i as int)).len() >= 1,
            split_dots(name@.subrange(0, i as int)).last() == name@.subrange(from as int, i as int),
            fits == labels_fit(nonempty(split_dots(name@.subrange(0, i as int)).drop_last())),
            fits ==> out@ == old(out)@ + labels_wire(nonempty(split_dots(name@.subrange(0, i as int)).drop_last())),
        decreases n - i,
    {
        let ghost prefix = name@.subrange(0, i as int);
        let ghost pieces = split_dots(prefix);
        let c = name.get_char(i);
        proof {
            assert(name@.subrange(0, i + 1).drop_last() =~= prefix);
            lemma_split_dots_len(name@.subrange(0, i + 1));
        }
        if c == '.' {
            let ghost done = nonempty(pieces.drop_last());
            proof {
                assert(pieces =~= pieces.drop_last().push(pieces.last()));
                lemma_nonempty_push(pieces.drop_last(), pieces.last());
                lemma_fit_push(done, pieces.last());
                assert(split_dots(name@.subrange(0, i + 1)).drop_last() =~= pieces);
            }
            if fits {
                fits = push_label(name, from, i, out);
                proof {
                    if fits && i > from {
                        assert(labels_wire(done.push(pieces.last())) == labels_wire(done) + label_wire(pieces.last())) by {
                            assert(done.push(pieces.last()).drop_last() =~= done);
                        }
                    }
                    if fits && i == from {
                        assert(out@ =~= old(out)@ + labels_wire(done));
                    }
                }
            }
            from = i + 1;
            proof {
                assert(name@.subrange(from as int, i + 1) =~= seq![]);
            }
        } else {
            proof {
                assert(split_dots(name@.subrange(0, i + 1)).drop_last() =~= pieces.drop_last());
                assert(name@.subrange(from as int, i + 1) =~= name@.subrange(from as int, i as int).push(c));
            }
        }
        i = i + 1;
    }
    proof {
        assert(name@.subrange(0, n as int) =~= name@);
    }
    let ghost pieces = split_dots(name@);
    let ghost done = nonempty(pieces.drop_last());
    proof {
        assert(pieces =~= pieces.drop_last().push(pieces.last()));
        lemma_nonempty_push(pieces.drop_last(), pieces.last());
        lemma_fit_push(done, pieces.last());
    }
    if !fits {
        return Err(CodecError::InvalidLabelLength);
    }
    if !push_label(name, from, n, out) {
        return Err(CodecError::InvalidLabelLength);
    }
    proof {
        if n > from {
            assert(done.push(pieces.last()).drop_last() =~= done);
        } else {
            assert(out@ =~= old(out)@ + labels_wire(done));
        }
    }
    out.push(0);
    proof {
        assert(out@ =~= old(out)@ + (labels_wire(labels_of(name@)) + seq![0u8]));
    }
    Ok(())
}

} // verus!
