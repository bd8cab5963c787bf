//! The annotation pipeline: each record of a trace is split into fields, its
//! textual fields are rewritten through the resolver registry, and a record
//! that no rewrite touched is copied byte for byte.

use vstd::prelude::*;
use vstd::utf8::{decode_utf8, encode_utf8, valid_utf8};

use crate::annotate::{
    annotate_string, annotated, any_resolved, consistent, known_hole, lemma_resolved_is_known,
    logged_calls, resolutions_from,
    Annotater, Registry, Resolution,
};
use crate::framing::{fields_from, frame_at, read_frame, split_fields, FrameError, RawField};
use crate::placeholder::lex;
use crate::wire::{bytes_field, frame, put_bytes, put_frame, put_varint, varint};

verus! {

/// Why a trace could not be annotated.
#[derive(Debug, Clone, PartialEq, Eq)]
pub enum AnnotateError {
    /// The framing of the stream is malformed.
    Frame(FrameError),
    /// A record's payload is not a sequence of well-formed fields.
    MalformedRecord,
    /// A textual field is not valid UTF-8.
    InvalidText,
}

/// The messages whose textual fields are visited.
#[derive(Debug, Clone, Copy, PartialEq, Eq, Structural)]
pub enum MessageKind {
    Packet,
    TrackEvent,
    TrackDescriptor,
    Process,
    Thread,
}

/// A textual field of a message kind: the event name; the descriptor's
/// description and name; the process name and each command-line argument;
/// the thread name.
pub open spec fn is_text_field(kind: MessageKind, number: nat) -> bool {
    match kind {
        MessageKind::Packet => false,
        MessageKind::TrackEvent => number == 23,
        MessageKind::TrackDescriptor => number == 14 || number == 2,
        MessageKind::Process => number == 6 || number == 2,
        MessageKind::Thread => number == 5,
    }
}

/// The message kind of a nested field that holds textual fields.
pub open spec fn sub_kind(kind: MessageKind, number: nat) -> Option<MessageKind> {
    match kind {
        MessageKind::Packet => if number == 11 {
            Some(MessageKind::TrackEvent)
        } else if number == 60 {
            Some(MessageKind::TrackDescriptor)
        } else {
            None
        },
        MessageKind::TrackDescriptor => if number == 3 {
            Some(MessageKind::Process)
        } else if number == 4 {
            Some(MessageKind::Thread)
        } else {
            None
        },
        _ => None,
    }
}

pub open spec fn kind_rank(kind: MessageKind) -> nat {
    match kind {
        MessageKind::Packet => 2,
        MessageKind::TrackDescriptor => 1,
        _ => 0,
    }
}

/// The message splits into fields, and each field that annotation visits is
/// well formed in turn: a textual field is valid UTF-8, a nested message is
/// well formed.
pub open spec fn well_formed(kind: MessageKind, s: Seq<u8>) -> bool
    decreases kind_rank(kind),
{
    match fields_from(s, 0) {
        None => false,
        Some(fs) => forall|i: int|
            0 <= i < fs.len() ==> (#[trigger] fs[i]).0 % 8 == 2 ==> {
                &&& is_text_field(kind, fs[i].0 / 8) ==> valid_utf8(s.subrange(fs[i].2, fs[i].3))
                &&& match sub_kind(kind, fs[i].0 / 8) {
                    Some(sk) => kind_rank(sk) < kind_rank(kind) && well_formed(
                        sk,
                        s.subrange(fs[i].2, fs[i].3),
                    ),
                    None => true,
                }
            },
    }
}

/// One field of a message of the given kind is well formed.
pub open spec fn field_ok(kind: MessageKind, s: Seq<u8>, f: (nat, int, int, int)) -> bool {
    f.0 % 8 == 2 ==> {
        &&& is_text_field(kind, f.0 / 8) ==> valid_utf8(s.subrange(f.2, f.3))
        &&& match sub_kind(kind, f.0 / 8) {
            Some(sk) => kind_rank(sk) < kind_rank(kind) && well_formed(sk, s.subrange(f.2, f.3)),
            None => true,
        }
    }
}

/// Some textual field of the message (at any depth) is valid UTF-8 and holds
/// a placeholder whose kind has a resolver.
pub open spec fn has_known_text(kind: MessageKind, s: Seq<u8>, kinds: Map<Seq<char>, nat>) -> bool
    decreases kind_rank(kind),
{
    match fields_from(s, 0) {
        None => false,
        Some(fs) => exists|i: int|
            0 <= i < fs.len() && #[trigger] fs[i].0 % 8 == 2 && {
                let body = s.subrange(fs[i].2, fs[i].3);
                ||| is_text_field(kind, fs[i].0 / 8) && valid_utf8(body) && exists|j: int|
                    0 <= j < lex(decode_utf8(body)).len() && known_hole(
                        kinds,
                        #[trigger] lex(decode_utf8(body))[j],
                    )
                ||| match sub_kind(kind, fs[i].0 / 8) {
                    Some(sk) => kind_rank(sk) < kind_rank(kind) && has_known_text(sk, body, kinds),
                    None => false,
                }
            },
    }
}

/// Concatenation of byte strings.
pub open spec fn concat(pieces: Seq<Seq<u8>>) -> Seq<u8>
    decreases pieces.len(),
{
    if pieces.len() == 0 {
        Seq::empty()
    } else {
        concat(pieces.drop_last()) + pieces.last()
    }
}

/// A rewrite's output: the new bytes, or the message itself where nothing
/// was rewritten.
pub open spec fn output_of(x: Option<Vec<u8>>, msg: Seq<u8>) -> Seq<u8> {
    match x {
        Some(out) => out@,
        None => msg,
    }
}

/// Concatenation of call logs.
pub open spec fn concat_calls(segs: Seq<Seq<(nat, Seq<char>, Seq<char>, Resolution)>>) -> Seq<(nat, Seq<char>, Seq<char>, Resolution)>
    decreases segs.len(),
{
    if segs.len() == 0 {
        Seq::empty()
    } else {
        concat_calls(segs.drop_last()) + segs.last()
    }
}

proof fn lemma_concat_calls_push(segs: Seq<Seq<(nat, Seq<char>, Seq<char>, Resolution)>>, x: Seq<(nat, Seq<char>, Seq<char>, Resolution)>)
    ensures
        concat_calls(segs.push(x)) == concat_calls(segs) + x,
{
    assert(segs.push(x).drop_last() =~= segs);
}

/// A textual field's bytes in the output, with the resolver calls made for
/// it: for the answers those calls got, the annotated text where a resolver
/// answered, else the field as it was.
pub open spec fn text_piece(
    kinds: Map<Seq<char>, nat>,
    number: nat,
    raw: Seq<u8>,
    body: Seq<u8>,
    piece: Seq<u8>,
    calls: Seq<(nat, Seq<char>, Seq<char>, Resolution)>,
) -> bool {
    valid_utf8(body) && exists|answers: Seq<Resolution>|
        {
            &&& calls == #[trigger] logged_calls(kinds, lex(decode_utf8(body)), answers)
            &&& consistent(
                kinds,
                lex(decode_utf8(body)),
                resolutions_from(kinds, lex(decode_utf8(body)), answers),
            )
            &&& piece == if any_resolved(
                lex(decode_utf8(body)),
                resolutions_from(kinds, lex(decode_utf8(body)), answers),
                lex(decode_utf8(body)).len() as int,
            ) {
                bytes_field(
                    number,
                    encode_utf8(
                        annotated(
                            decode_utf8(body),
                            resolutions_from(kinds, lex(decode_utf8(body)), answers),
                        ),
                    ),
                )
            } else {
                raw
            }
        }
}

/// `out` is `s` annotated in place, with the resolver calls `calls` made for
/// it: its fields in order, each with its share of the calls; each field
/// that annotation does not visit byte for byte, with no calls; each textual
/// field as `text_piece` says; each nested message rewritten in place in
/// turn, or kept where its rewrite changed nothing.
pub open spec fn rewrites_in_place(
    kind: MessageKind,
    kinds: Map<Seq<char>, nat>,
    s: Seq<u8>,
    out: Seq<u8>,
    calls: Seq<(nat, Seq<char>, Seq<char>, Resolution)>,
) -> bool
    decreases kind_rank(kind),
{
    match fields_from(s, 0) {
        None => false,
        Some(fs) => exists|pieces: Seq<Seq<u8>>, segs: Seq<Seq<(nat, Seq<char>, Seq<char>, Resolution)>>|
            #![trigger concat(pieces), concat_calls(segs)]
            {
                &&& concat(pieces) == out
                &&& concat_calls(segs) == calls
                &&& pieces.len() == fs.len()
                &&& segs.len() == fs.len()
                &&& forall|i: int|
                    0 <= i < fs.len() ==> if (#[trigger] fs[i]).0 % 8 == 2 && is_text_field(kind, fs[i].0 / 8) {
                        text_piece(
                            kinds,
                            fs[i].0 / 8,
                            s.subrange(fs[i].1, fs[i].3),
                            s.subrange(fs[i].2, fs[i].3),
                            pieces[i],
                            segs[i],
                        )
                    } else if fs[i].0 % 8 == 2 && sub_kind(kind, fs[i].0 / 8) is Some {
                        kind_rank(sub_kind(kind, fs[i].0 / 8)->0) < kind_rank(kind) && {
                            ||| pieces[i] == s.subrange(fs[i].1, fs[i].3) && rewrites_in_place(
                                sub_kind(kind, fs[i].0 / 8)->0,
                                kinds,
                                s.subrange(fs[i].2, fs[i].3),
                                s.subrange(fs[i].2, fs[i].3),
                                segs[i],
                            )
                            ||| exists|b: Seq<u8>|
                                pieces[i] == #[trigger] bytes_field(fs[i].0 / 8, b) && rewrites_in_place(
                                    sub_kind(kind, fs[i].0 / 8)->0,
                                    kinds,
                                    s.subrange(fs[i].2, fs[i].3),
                                    b,
                                    segs[i],
                                )
                        }
                    } else {
                        pieces[i] == s.subrange(fs[i].1, fs[i].3) && segs[i].len() == 0
                    }
            },
    }
}

/// One field's bytes in the output and its calls, as `rewrites_in_place`
/// asks of them.
pub open spec fn piece_fits(
    kind: MessageKind,
    kinds: Map<Seq<char>, nat>,
    s: Seq<u8>,
    f: (nat, int, int, int),
    piece: Seq<u8>,
    seg: Seq<(nat, Seq<char>, Seq<char>, Resolution)>,
) -> bool {
    if f.0 % 8 == 2 && is_text_field(kind, f.0 / 8) {
        text_piece(
            kinds,
            f.0 / 8,
            s.subrange(f.1, f.3),
            s.subrange(f.2, f.3),
            piece,
            seg,
        )
    } else if f.0 % 8 == 2 && sub_kind(kind, f.0 / 8) is Some {
        kind_rank(sub_kind(kind, f.0 / 8)->0) < kind_rank(kind) && {
            ||| piece == s.subrange(f.1, f.3) && rewrites_in_place(
                sub_kind(kind, f.0 / 8)->0,
                kinds,
                s.subrange(f.2, f.3),
                s.subrange(f.2, f.3),
                seg,
            )
            ||| exists|b: Seq<u8>|
                piece == #[trigger] bytes_field(f.0 / 8, b) && rewrites_in_place(
                    sub_kind(kind, f.0 / 8)->0,
                    kinds,
                    s.subrange(f.2, f.3),
                    b,
                    seg,
                )
        }
    } else {
        piece == s.subrange(f.1, f.3) && seg.len() == 0
    }
}

/// Relies on `std::str::from_utf8`: it succeeds exactly on valid UTF-8, and
/// the string then holds the characters that the bytes encode.
#[verifier::external_body]
fn str_from_utf8(b: &[u8]) -> (r: Option<&str>)
    ensures
        match r {
            Some(s) => valid_utf8(b@) && s@ == decode_utf8(b@),
            None => !valid_utf8(b@),
        },
{
    std::str::from_utf8(b).ok()
}

/// Rewrites one textual field's bytes. `None` means no resolver answered and
/// the text stays as it was. It fails only on text that is not UTF-8.
pub fn rewrite_text<A: Annotater>(body: &[u8], annotators: &mut Registry<A>) -> (r: Result<
    Option<Vec<u8>>,
    AnnotateError,
>)
    requires
        old(annotators).wf(),
    ensures
        final(annotators).wf(),
        final(annotators).kinds() == old(annotators).kinds(),
        final(annotators).len() == old(annotators).len(),
        r is Err ==> final(annotators).calls() == old(annotators).calls(),
        match r {
            Ok(x) => valid_utf8(body@) && exists|answers: Seq<Resolution>|
                {
                    &&& final(annotators).calls() == old(annotators).calls() + #[trigger] logged_calls(
                        old(annotators).kinds(),
                        lex(decode_utf8(body@)),
                        answers,
                    )
                    &&& consistent(
                        old(annotators).kinds(),
                        lex(decode_utf8(body@)),
                        resolutions_from(old(annotators).kinds(), lex(decode_utf8(body@)), answers),
                    )
                    &&& (x is None <==> !any_resolved(
                        lex(decode_utf8(body@)),
                        resolutions_from(old(annotators).kinds(), lex(decode_utf8(body@)), answers),
                        lex(decode_utf8(body@)).len() as int,
                    ))
                    &&& x matches Some(nb) ==> nb@ == encode_utf8(
                        annotated(
                            decode_utf8(body@),
                            resolutions_from(
                                old(annotators).kinds(),
                                lex(decode_utf8(body@)),
                                answers,
                            ),
                        ),
                    )
                } && (x is Some ==> exists|j: int|
                    0 <= j < lex(decode_utf8(body@)).len() && known_hole(
                        old(annotators).kinds(),
                        #[trigger] lex(decode_utf8(body@))[j],
                    )),
            Err(AnnotateError::InvalidText) => !valid_utf8(body@),
            Err(_) => false,
        },
{
    let text = match str_from_utf8(body) {
        Some(t) => t,
        None => {
            return Err(AnnotateError::InvalidText);
        },
    };
    let mut s = text.to_owned();
    let ghost kinds = annotators.kinds();
    let ghost ts = lex(decode_utf8(body@));
    let modified = annotate_string(&mut s, annotators);
    let ghost answers = choose|answers: Seq<Resolution>|
        {
            &&& annotators.calls() == old(annotators).calls() + #[trigger] logged_calls(
                kinds,
                ts,
                answers,
            )
            &&& consistent(kinds, ts, resolutions_from(kinds, ts, answers))
            &&& modified == any_resolved(ts, resolutions_from(kinds, ts, answers), ts.len() as int)
            &&& s@ == annotated(decode_utf8(body@), resolutions_from(kinds, ts, answers))
        };
    if modified {
        proof {
            lemma_resolved_is_known(kinds, ts, resolutions_from(kinds, ts, answers));
        }
        let nb = s.as_str().as_bytes_vec();
        Ok(Some(nb))
    } else {
        Ok(None)
    }
}

proof fn lemma_concat_push(pieces: Seq<Seq<u8>>, x: Seq<u8>)
    ensures
        concat(pieces.push(x)) == concat(pieces) + x,
{
    assert(pieces.push(x).drop_last() =~= pieces);
}

/// Rewrites the textual fields of a message of the given kind. `None` means
/// no field was rewritten.
#[verifier::spinoff_prover]
#[verifier::rlimit(50)]
pub fn rewrite_message<A: Annotater>(
    msg: &[u8],
    kind: MessageKind,
    annotators: &mut Registry<A>,
) -> (r: Result<Option<Vec<u8>>, AnnotateError>)
    requires
        old(annotators).wf(),
    ensures
        final(annotators).wf(),
        final(annotators).kinds() == old(annotators).kinds(),
        final(annotators).len() == old(annotators).len(),
        match r {
            Ok(x) => well_formed(kind, msg@) && exists|c: Seq<(nat, Seq<char>, Seq<char>, Resolution)>|
                final(annotators).calls() == old(annotators).calls() + c
                    && #[trigger] rewrites_in_place(
                    kind,
                    old(annotators).kinds(),
                    msg@,
                    output_of(x, msg@),
                    c,
                ) && (x is Some ==> has_known_text(kind, msg@, old(annotators).kinds())),
            Err(AnnotateError::MalformedRecord) => !well_formed(kind, msg@),
            Err(AnnotateError::InvalidText) => !well_formed(kind, msg@),
            Err(_) => false,
        },
    decreases kind_rank(kind),
{
    let fields = match split_fields(msg) {
        Some(f) => f,
        None => {
            return Err(AnnotateError::MalformedRecord);
        },
    };
    let ghost fs = fields@.map_values(|f: RawField| f@);
    let ghost kinds = annotators.kinds();
    proof {
        lemma_fields_contiguous(msg@, 0, fs);
    }
    let mut out: Vec<u8> = Vec::new();
    let mut modified = false;
    let ghost mut pieces: Seq<Seq<u8>> = Seq::empty();
    let ghost mut segs: Seq<Seq<(nat, Seq<char>, Seq<char>, Resolution)>> = Seq::empty();
    let ghost mut pos: int = 0;
    assert(old(annotators).calls() + concat_calls(segs) =~= old(annotators).calls());
    assert(msg@.subrange(0, 0) =~= Seq::<u8>::empty());
    let mut i: usize = 0;
    while i < fields.len()
        invariant
            annotators.wf(),
            annotators.kinds() == old(annotators).kinds(),
            kinds == old(annotators).kinds(),
            annotators.len() == old(annotators).len(),
            fields_from(msg@, 0) == Some(fs),
            fs == fields@.map_values(|f: RawField| f@),
            fs.len() == 0 ==> msg@.len() == 0,
            fs.len() > 0 ==> fs[0].1 == 0 && fs[fs.len() - 1].3 == msg@.len(),
            forall|j: int| 0 <= j < fs.len() - 1 ==> #[trigger] fs[j].3 == fs[j + 1].1,
            i <= fields@.len(),
            pos == if i == 0 {
                0
            } else {
                fs[i - 1].3
            },
            !modified ==> out@ == msg@.subrange(0, pos),
            pieces.len() == i,
            segs.len() == i,
            out@ == concat(pieces),
            annotators.calls() == old(annotators).calls() + concat_calls(segs),
            forall|j: int|
                0 <= j < i ==> #[trigger] piece_fits(kind, kinds, msg@, fs[j], pieces[j], segs[j]),
            forall|j: int| 0 <= j < i ==> #[trigger] field_ok(kind, msg@, fs[j]),
            modified ==> exists|j: int|
                0 <= j < i && #[trigger] fs[j].0 % 8 == 2 && {
                    let body = msg@.subrange(fs[j].2, fs[j].3);
                    ||| is_text_field(kind, fs[j].0 / 8) && valid_utf8(body) && exists|m: int|
                        0 <= m < lex(decode_utf8(body)).len() && known_hole(
                            old(annotators).kinds(),
                            #[trigger] lex(decode_utf8(body))[m],
                        )
                    ||| match sub_kind(kind, fs[j].0 / 8) {
                        Some(sk) => kind_rank(sk) < kind_rank(kind) && has_known_text(
                            sk,
                            body,
                            old(annotators).kinds(),
                        ),
                        None => false,
                    }
                },
        decreases fields@.len() - i,
    {
        let f = fields[i];
        proof {
            lemma_fields_in_bounds(msg@, 0, fs, i as int);
        }
        assert(fs[i as int] == f@);
        let number = f.key / 8;
        let length_delimited = f.key % 8 == 2;
        let text = length_delimited && match kind {
            MessageKind::Packet => false,
            MessageKind::TrackEvent => number == 23,
            MessageKind::TrackDescriptor => number == 14 || number == 2,
            MessageKind::Process => number == 6 || number == 2,
            MessageKind::Thread => number == 5,
        };
        let sub = if !length_delimited {
            None
        } else {
            match kind {
                MessageKind::Packet => if number == 11 {
                    Some(MessageKind::TrackEvent)
                } else if number == 60 {
                    Some(MessageKind::TrackDescriptor)
                } else {
                    None
                },
                MessageKind::TrackDescriptor => if number == 3 {
                    Some(MessageKind::Process)
                } else if number == 4 {
                    Some(MessageKind::Thread)
                } else {
                    None
                },
                _ => None,
            }
        };
        let body = slice_range(msg, f.body, f.end);
        assert(body@ == msg@.subrange(fs[i as int].2, fs[i as int].3));
        assert(f.start == pos);
        let ghost raw_piece = msg@.subrange(f.start as int, f.end as int);
        let ghost calls_before = annotators.calls();
        let ghost mut seg: Seq<(nat, Seq<char>, Seq<char>, Resolution)> = Seq::empty();
        let rewritten = if text {
            match rewrite_text(body, annotators) {
                Ok(x) => {
                    proof {
                        let ts = lex(decode_utf8(body@));
                        let answers = choose|answers: Seq<Resolution>|
                            {
                                &&& annotators.calls() == calls_before + #[trigger] logged_calls(
                                    kinds,
                                    ts,
                                    answers,
                                )
                                &&& consistent(kinds, ts, resolutions_from(kinds, ts, answers))
                                &&& (x is None <==> !any_resolved(
                                    ts,
                                    resolutions_from(kinds, ts, answers),
                                    ts.len() as int,
                                ))
                                &&& x matches Some(nb) ==> nb@ == encode_utf8(
                                    annotated(
                                        decode_utf8(body@),
                                        resolutions_from(kinds, ts, answers),
                                    ),
                                )
                            };
                        seg = logged_calls(kinds, ts, answers);
                        assert(text_piece(
                            kinds,
                            number as nat,
                            raw_piece,
                            body@,
                            match &x {
                                Some(nb) => bytes_field(number as nat, nb@),
                                None => raw_piece,
                            },
                            seg,
                        ));
                    }
                    x
                },
                Err(err) => {
                    proof {
                        assert(!field_ok(kind, msg@, fs[i as int]));
                        assert(!well_formed(kind, msg@));
                    }
                    return Err(err);
                },
            }
        } else {
            match sub {
                Some(sk) => {
                    assert(kind_rank(sk) < kind_rank(kind));
                    match rewrite_message(body, sk, annotators) {
                        Ok(x) => {
                            proof {
                                let bx = output_of(x, body@);
                                seg = choose|c: Seq<(nat, Seq<char>, Seq<char>, Resolution)>|
                                    annotators.calls() == calls_before + c
                                        && #[trigger] rewrites_in_place(sk, kinds, body@, bx, c);
                                assert(rewrites_in_place(sk, kinds, body@, bx, seg));
                            }
                            x
                        },
                        Err(err) => {
                            proof {
                                assert(!field_ok(kind, msg@, fs[i as int]));
                                assert(!well_formed(kind, msg@));
                            }
                            return Err(err);
                        },
                    }
                },
                None => None,
            }
        };
        assert(annotators.calls() == calls_before + seg);
        assert(field_ok(kind, msg@, fs[i as int]));
        let ghost before = out@;
        let ghost old_segs = segs;
        match rewritten {
            Some(nb) => {
                put_varint(&mut out, f.key);
                put_varint(&mut out, nb.len() as u64);
                put_bytes(&mut out, nb.as_slice());
                modified = true;
                assert(fs[i as int].0 % 8 == 2);
                proof {
                    let piece = bytes_field(number as nat, nb@);
                    assert(f.key as nat == number * 8 + 2);
                    assert(out@ =~= before + piece);
                    lemma_concat_push(pieces, piece);
                    let old_pieces = pieces;
                    pieces = pieces.push(piece);
                    segs = segs.push(seg);
                    assert(fs[i as int].0 == f.key as nat);
                    assert(pieces[i as int] == bytes_field(fs[i as int].0 / 8, nb@));
                    assert(piece_fits(kind, kinds, msg@, fs[i as int], pieces[i as int], segs[i as int]));
                    assert forall|j: int| 0 <= j < i implies pieces[j] == old_pieces[j] && segs[j]
                        == old_segs[j] by {}
                }
            },
            None => {
                let raw = slice_range(msg, f.start, f.end);
                put_bytes(&mut out, raw);
                proof {
                    lemma_concat_push(pieces, raw@);
                    let old_pieces = pieces;
                    pieces = pieces.push(raw@);
                    segs = segs.push(seg);
                    assert(pieces[i as int] == msg@.subrange(f.start as int, f.end as int));
                    assert(piece_fits(kind, kinds, msg@, fs[i as int], pieces[i as int], segs[i as int]));
                    assert forall|j: int| 0 <= j < i implies pieces[j] == old_pieces[j] && segs[j]
                        == old_segs[j] by {}
                    if !modified {
                        assert(out@ =~= msg@.subrange(0, f.end as int));
                    }
                }
            },
        }
        proof {
            lemma_concat_calls_push(old_segs, seg);
        }
        proof {
            pos = f.end as int;
        }
        i = i + 1;
    }
    assert(pos == msg@.len());
    assert(fields_from(msg@, 0) == Some(fs));
    assert(forall|j: int| 0 <= j < fs.len() ==> #[trigger] field_ok(kind, msg@, fs[j]));
    assert(well_formed(kind, msg@)) by {
        assert forall|j: int| 0 <= j < fs.len() implies (#[trigger] fs[j]).0 % 8 == 2 ==> {
            &&& is_text_field(kind, fs[j].0 / 8) ==> valid_utf8(msg@.subrange(fs[j].2, fs[j].3))
            &&& match sub_kind(kind, fs[j].0 / 8) {
                Some(sk) => kind_rank(sk) < kind_rank(kind) && well_formed(
                    sk,
                    msg@.subrange(fs[j].2, fs[j].3),
                ),
                None => true,
            }
        } by {
            assert(field_ok(kind, msg@, fs[j]));
        }
    }
    proof {
        lemma_rewrites_in_place_intro(kind, kinds, msg@, out@, fs, pieces, segs);
    }
    if modified {
        let r: Option<Vec<u8>> = Some(out);
        assert(rewrites_in_place(kind, kinds, msg@, output_of(r, msg@), concat_calls(segs)));
        Ok(r)
    } else {
        assert(out@ == msg@);
        let r: Option<Vec<u8>> = None;
        assert(rewrites_in_place(kind, kinds, msg@, output_of(r, msg@), concat_calls(segs)));
        Ok(r)
    }
}

proof fn lemma_rewrites_in_place_intro(
    kind: MessageKind,
    kinds: Map<Seq<char>, nat>,
    s: Seq<u8>,
    out: Seq<u8>,
    fs: Seq<(nat, int, int, int)>,
    pieces: Seq<Seq<u8>>,
    segs: Seq<Seq<(nat, Seq<char>, Seq<char>, Resolution)>>,
)
    requires
        fields_from(s, 0) == Some(fs),
        concat(pieces) == out,
        pieces.len() == fs.len(),
        segs.len() == fs.len(),
        forall|j: int|
            0 <= j < fs.len() ==> #[trigger] piece_fits(kind, kinds, s, fs[j], pieces[j], segs[j]),
    ensures
        rewrites_in_place(kind, kinds, s, out, concat_calls(segs)),
{
    assert forall|j: int| 0 <= j < fs.len() implies if (#[trigger] fs[j]).0 % 8 == 2 && is_text_field(kind, fs[j].0 / 8) {
            text_piece(
                kinds,
                fs[j].0 / 8,
                s.subrange(fs[j].1, fs[j].3),
                s.subrange(fs[j].2, fs[j].3),
                pieces[j],
                segs[j],
            )
        } else if fs[j].0 % 8 == 2 && sub_kind(kind, fs[j].0 / 8) is Some {
            kind_rank(sub_kind(kind, fs[j].0 / 8)->0) < kind_rank(kind) && {
                ||| pieces[j] == s.subrange(fs[j].1, fs[j].3) && rewrites_in_place(
                    sub_kind(kind, fs[j].0 / 8)->0,
                    kinds,
                    s.subrange(fs[j].2, fs[j].3),
                    s.subrange(fs[j].2, fs[j].3),
                    segs[j],
                )
                ||| exists|b: Seq<u8>|
                    pieces[j] == #[trigger] bytes_field(fs[j].0 / 8, b) && rewrites_in_place(
                        sub_kind(kind, fs[j].0 / 8)->0,
                        kinds,
                        s.subrange(fs[j].2, fs[j].3),
                        b,
                        segs[j],
                    )
            }
        } else {
            pieces[j] == s.subrange(fs[j].1, fs[j].3) && segs[j].len() == 0
        } by {
        assert(piece_fits(kind, kinds, s, fs[j], pieces[j], segs[j]));
    }
    let p2 = pieces;
    let s2 = segs;
    assert(concat(p2) == out && concat_calls(s2) == concat_calls(segs) && p2.len() == fs.len()
        && s2.len() == fs.len());
    assert(forall|i: int| 0 <= i < fs.len() ==> if (#[trigger] fs[i]).0 % 8 == 2 && is_text_field(kind, fs[i].0 / 8) {
            text_piece(
                kinds,
                fs[i].0 / 8,
                s.subrange(fs[i].1, fs[i].3),
                s.subrange(fs[i].2, fs[i].3),
                p2[i],
                s2[i],
            )
        } else if fs[i].0 % 8 == 2 && sub_kind(kind, fs[i].0 / 8) is Some {
            kind_rank(sub_kind(kind, fs[i].0 / 8)->0) < kind_rank(kind) && {
                ||| p2[i] == s.subrange(fs[i].1, fs[i].3) && rewrites_in_place(
                    sub_kind(kind, fs[i].0 / 8)->0,
                    kinds,
                    s.subrange(fs[i].2, fs[i].3),
                    s.subrange(fs[i].2, fs[i].3),
                    s2[i],
                )
                ||| exists|b: Seq<u8>|
                    p2[i] == #[trigger] bytes_field(fs[i].0 / 8, b) && rewrites_in_place(
                        sub_kind(kind, fs[i].0 / 8)->0,
                        kinds,
                        s.subrange(fs[i].2, fs[i].3),
                        b,
                        s2[i],
                    )
            }
        } else {
            p2[i] == s.subrange(fs[i].1, fs[i].3) && s2[i].len() == 0
        });
}

proof fn lemma_fields_contiguous(s: Seq<u8>, p: int, fs: Seq<(nat, int, int, int)>)
    requires
        0 <= p <= s.len(),
        fields_from(s, p) == Some(fs),
    ensures
        fs.len() == 0 ==> p == s.len(),
        fs.len() > 0 ==> fs[0].1 == p && fs[fs.len() - 1].3 == s.len(),
        forall|j: int| 0 <= j < fs.len() - 1 ==> #[trigger] fs[j].3 == fs[j + 1].1,
    decreases s.len() - p,
{
    crate::framing::lemma_field_at_bounds(s, p);
    if p < s.len() {
        let (k, b, e) = crate::framing::field_at(s, p)->0;
        let rest = fields_from(s, e)->0;
        lemma_fields_contiguous(s, e, rest);
        assert(fs == seq![(k, p, b, e)] + rest);
        assert forall|j: int| 0 <= j < fs.len() - 1 implies #[trigger] fs[j].3 == fs[j + 1].1 by {
            if j > 0 {
                assert(fs[j] == rest[j - 1]);
                assert(fs[j + 1] == rest[j]);
            }
        }
        if rest.len() > 0 {
            assert(fs[fs.len() - 1] == rest[rest.len() - 1]);
        }
    }
}

proof fn lemma_fields_in_bounds(s: Seq<u8>, p: int, fs: Seq<(nat, int, int, int)>, i: int)
    requires
        0 <= p,
        fields_from(s, p) == Some(fs),
        0 <= i < fs.len(),
    ensures
        p <= fs[i].1 < fs[i].2 <= fs[i].3 <= s.len(),
    decreases s.len() - p,
{
    crate::framing::lemma_field_at_bounds(s, p);
    if p < s.len() {
        let (k, b, e) = crate::framing::field_at(s, p)->0;
        let rest = fields_from(s, e)->0;
        assert(fs == seq![(k, p, b, e)] + rest);
        if i > 0 {
            lemma_fields_in_bounds(s, e, rest, i - 1);
            assert(fs[i] == rest[i - 1]);
        }
    }
}

/// The bytes `s[a..b]`.
fn slice_range(s: &[u8], a: usize, b: usize) -> (r: &[u8])
    requires
        a <= b <= s@.len(),
    ensures
        r@ == s@.subrange(a as int, b as int),
{
    vstd::slice::slice_subrange(s, a, b)
}

/// Rewrites the textual fields of one record's payload. `None` means no field
/// was rewritten.
pub fn annotate_packet<A: Annotater>(payload: &[u8], annotators: &mut Registry<A>) -> (r: Result<
    Option<Vec<u8>>,
    AnnotateError,
>)
    requires
        old(annotators).wf(),
    ensures
        final(annotators).wf(),
        final(annotators).kinds() == old(annotators).kinds(),
        final(annotators).len() == old(annotators).len(),
        match r {
            Ok(x) => well_formed(MessageKind::Packet, payload@) && exists|c: Seq<(nat, Seq<char>, Seq<char>, Resolution)>|
                final(annotators).calls() == old(annotators).calls() + c
                    && #[trigger] rewrites_in_place(
                    MessageKind::Packet,
                    old(annotators).kinds(),
                    payload@,
                    output_of(x, payload@),
                    c,
                ) && (x is Some ==> has_known_text(
                    MessageKind::Packet,
                    payload@,
                    old(annotators).kinds(),
                )),
            Err(AnnotateError::MalformedRecord) => !well_formed(MessageKind::Packet, payload@),
            Err(AnnotateError::InvalidText) => !well_formed(MessageKind::Packet, payload@),
            Err(_) => false,
        },
{
    rewrite_message(payload, MessageKind::Packet, annotators)
}

/// The records from `p` to the end: start, payload start and end of each,
/// or the first framing error.
pub open spec fn frames_from(s: Seq<u8>, p: int) -> Result<Seq<(int, int, int)>, FrameError>
    decreases s.len() - p
        via frames_from_decreases
{
    if p < 0 {
        Ok(Seq::empty())
    } else {
        match frame_at(s, p) {
            Err(e) => Err(e),
            Ok(None) => Ok(Seq::empty()),
            Ok(Some((b, e))) => match frames_from(s, e) {
                Err(x) => Err(x),
                Ok(rest) => Ok(seq![(p, b, e)] + rest),
            },
        }
    }
}

proof fn lemma_frame_at_bounds(s: Seq<u8>, p: int)
    requires
        0 <= p,
    ensures
        frame_at(s, p) matches Ok(Some((b, e))) ==> p < b < e <= s.len(),
{
    crate::framing::lemma_varint_last_bounds(s, p + 1);
}

#[via_fn]
proof fn frames_from_decreases(s: Seq<u8>, p: int) {
    if p >= 0 {
        lemma_frame_at_bounds(s, p);
    }
}

/// From `p` on, the stream is a sequence of well-framed records whose
/// payloads are well formed.
pub open spec fn stream_well_formed(s: Seq<u8>, p: int) -> bool
    decreases s.len() - p
        via stream_well_formed_decreases
{
    if p < 0 {
        false
    } else {
        match frame_at(s, p) {
            Err(_) => false,
            Ok(None) => true,
            Ok(Some((b, e))) => well_formed(MessageKind::Packet, s.subrange(b, e))
                && stream_well_formed(s, e),
        }
    }
}

#[via_fn]
proof fn stream_well_formed_decreases(s: Seq<u8>, p: int) {
    if p >= 0 {
        lemma_frame_at_bounds(s, p);
    }
}

/// A record starts at `p` and its payload is not well formed.
pub open spec fn bad_record_at(s: Seq<u8>, p: int) -> bool {
    match frame_at(s, p) {
        Ok(Some((b, e))) => !well_formed(MessageKind::Packet, s.subrange(b, e)),
        _ => false,
    }
}

/// One record of the output, for a well-formed input record: the input
/// record byte for byte, or, where some textual field holds a placeholder of a
/// registered kind, a record whose payload is the input payload with textual
/// fields rewritten in place.
pub open spec fn record_fits(
    kinds: Map<Seq<char>, nat>,
    s: Seq<u8>,
    f: (int, int, int),
    piece: Seq<u8>,
    calls: Seq<(nat, Seq<char>, Seq<char>, Resolution)>,
) -> bool {
    &&& well_formed(MessageKind::Packet, s.subrange(f.1, f.2))
    &&& record_output(kinds, s, f, piece, calls)
}

/// The output record and the resolver calls made for it: the record byte for
/// byte where its rewrite changed nothing, else framed anew.
pub open spec fn record_output(
    kinds: Map<Seq<char>, nat>,
    s: Seq<u8>,
    f: (int, int, int),
    piece: Seq<u8>,
    calls: Seq<(nat, Seq<char>, Seq<char>, Resolution)>,
) -> bool {
    ||| piece == s.subrange(f.0, f.2) && rewrites_in_place(
        MessageKind::Packet,
        kinds,
        s.subrange(f.1, f.2),
        s.subrange(f.1, f.2),
        calls,
    )
    ||| has_known_text(MessageKind::Packet, s.subrange(f.1, f.2), kinds) && exists|q: Seq<u8>|
        #[trigger] frame(q) == piece && rewrites_in_place(
            MessageKind::Packet,
            kinds,
            s.subrange(f.1, f.2),
            q,
            calls,
        )
}

/// A record none of whose textual fields holds a placeholder of a registered
/// kind comes out byte for byte as it went in.
pub proof fn law_unannotated_record_echoed(
    kinds: Map<Seq<char>, nat>,
    s: Seq<u8>,
    f: (int, int, int),
    piece: Seq<u8>,
    calls: Seq<(nat, Seq<char>, Seq<char>, Resolution)>,
)
    requires
        record_fits(kinds, s, f, piece, calls),
        !has_known_text(MessageKind::Packet, s.subrange(f.1, f.2), kinds),
    ensures
        piece == s.subrange(f.0, f.2),
{
}

proof fn lemma_frames_contiguous(s: Seq<u8>, p: int, frs: Seq<(int, int, int)>)
    requires
        0 <= p <= s.len(),
        frames_from(s, p) == Ok::<Seq<(int, int, int)>, FrameError>(frs),
    ensures
        frs.len() == 0 ==> p == s.len(),
        frs.len() > 0 ==> frs[0].0 == p && frs[frs.len() - 1].2 == s.len(),
        forall|j: int| 0 <= j < frs.len() ==> p <= #[trigger] frs[j].0 <= frs[j].2 <= s.len(),
        forall|j: int| 0 <= j < frs.len() - 1 ==> #[trigger] frs[j].2 == frs[j + 1].0,
    decreases s.len() - p,
{
    lemma_frame_at_bounds(s, p);
    if let Ok(Some((b, e))) = frame_at(s, p) {
        let rest = frames_from(s, e)->Ok_0;
        lemma_frames_contiguous(s, e, rest);
        assert(frs == seq![(p, b, e)] + rest);
        assert forall|j: int| 0 <= j < frs.len() implies p <= #[trigger] frs[j].0 <= frs[j].2 <= s.len() by {
            if j > 0 {
                assert(frs[j] == rest[j - 1]);
            }
        }
        assert forall|j: int| 0 <= j < frs.len() - 1 implies #[trigger] frs[j].2 == frs[j + 1].0 by {
            if j > 0 {
                assert(frs[j] == rest[j - 1]);
                assert(frs[j + 1] == rest[j]);
            }
        }
        if rest.len() > 0 {
            assert(frs[frs.len() - 1] == rest[rest.len() - 1]);
        }
    }
}

/// A well-formed stream none of whose records holds a placeholder of a
/// registered kind comes out byte for byte as it went in.
pub proof fn law_unannotated_stream_echoed(
    kinds: Map<Seq<char>, nat>,
    s: Seq<u8>,
    frs: Seq<(int, int, int)>,
    pieces: Seq<Seq<u8>>,
    segs: Seq<Seq<(nat, Seq<char>, Seq<char>, Resolution)>>,
)
    requires
        frames_from(s, 0) == Ok::<Seq<(int, int, int)>, FrameError>(frs),
        pieces.len() == frs.len(),
        segs.len() == frs.len(),
        forall|i: int|
            0 <= i < frs.len() ==> #[trigger] record_fits(kinds, s, frs[i], pieces[i], segs[i]),
        forall|i: int|
            0 <= i < frs.len() ==> !has_known_text(
                MessageKind::Packet,
                s.subrange(#[trigger] frs[i].1, frs[i].2),
                kinds,
            ),
    ensures
        concat(pieces) == s,
{
    lemma_frames_contiguous(s, 0, frs);
    let n = frs.len() as int;
    assert forall|k: int| 0 <= k <= n implies #[trigger] concat(pieces.subrange(0, k)) == s.subrange(
        0,
        if k == 0 {
            0
        } else {
            frs[k - 1].2
        },
    ) by {
        lemma_echo_prefix(kinds, s, frs, pieces, segs, k);
    }
    assert(pieces.subrange(0, n) =~= pieces);
    assert(s.subrange(0, s.len() as int) =~= s);
    if n == 0 {
        assert(concat(pieces) == Seq::<u8>::empty());
    }
}

proof fn lemma_echo_prefix(
    kinds: Map<Seq<char>, nat>,
    s: Seq<u8>,
    frs: Seq<(int, int, int)>,
    pieces: Seq<Seq<u8>>,
    segs: Seq<Seq<(nat, Seq<char>, Seq<char>, Resolution)>>,
    k: int,
)
    requires
        frames_from(s, 0) == Ok::<Seq<(int, int, int)>, FrameError>(frs),
        0 <= k <= frs.len(),
        pieces.len() == frs.len(),
        segs.len() == frs.len(),
        frs.len() > 0 ==> frs[0].0 == 0,
        forall|j: int| 0 <= j < frs.len() ==> 0 <= #[trigger] frs[j].0 <= frs[j].2 <= s.len(),
        forall|j: int| 0 <= j < frs.len() - 1 ==> #[trigger] frs[j].2 == frs[j + 1].0,
        forall|i: int|
            0 <= i < frs.len() ==> #[trigger] record_fits(kinds, s, frs[i], pieces[i], segs[i]),
        forall|i: int|
            0 <= i < frs.len() ==> !has_known_text(
                MessageKind::Packet,
                s.subrange(#[trigger] frs[i].1, frs[i].2),
                kinds,
            ),
    ensures
        concat(pieces.subrange(0, k)) == s.subrange(
            0,
            if k == 0 {
                0
            } else {
                frs[k - 1].2
            },
        ),
    decreases k,
{
    if k == 0 {
        assert(pieces.subrange(0, 0) =~= Seq::<Seq<u8>>::empty());
        assert(s.subrange(0, 0) =~= Seq::<u8>::empty());
    } else {
        lemma_echo_prefix(kinds, s, frs, pieces, segs, k - 1);
        assert(pieces.subrange(0, k).drop_last() =~= pieces.subrange(0, k - 1));
        assert(record_fits(kinds, s, frs[k - 1], pieces[k - 1], segs[k - 1]));
        assert(!has_known_text(MessageKind::Packet, s.subrange(frs[k - 1].1, frs[k - 1].2), kinds));
        assert(pieces[k - 1] == s.subrange(frs[k - 1].0, frs[k - 1].2));
        let start = if k == 1 {
            0
        } else {
            frs[k - 2].2
        };
        assert(start == frs[k - 1].0);
        assert(s.subrange(0, frs[k - 1].2) =~= s.subrange(0, start) + s.subrange(
            start,
            frs[k - 1].2,
        ));
    }
}

/// Annotates every record of a trace, in order. A record whose textual fields
/// are unchanged is copied byte for byte; a changed one is framed anew. It
/// succeeds exactly on a well-formed stream.
pub fn annotate_records<A: Annotater>(input: &[u8], annotators: &mut Registry<A>) -> (r: Result<
    Vec<u8>,
    AnnotateError,
>)
    requires
        old(annotators).wf(),
    ensures
        final(annotators).wf(),
        final(annotators).kinds() == old(annotators).kinds(),
        r is Ok <==> stream_well_formed(input@, 0),
        match r {
            Ok(out) => match frames_from(input@, 0) {
                Ok(frs) => exists|pieces: Seq<Seq<u8>>, segs: Seq<Seq<(nat, Seq<char>, Seq<char>, Resolution)>>|
                    {
                        &&& #[trigger] concat(pieces) == out@
                        &&& final(annotators).calls() == old(annotators).calls()
                            + #[trigger] concat_calls(segs)
                        &&& pieces.len() == frs.len()
                        &&& segs.len() == frs.len()
                        &&& forall|i: int|
                            0 <= i < frs.len() ==> #[trigger] record_fits(
                                old(annotators).kinds(),
                                input@,
                                frs[i],
                                pieces[i],
                                segs[i],
                            )
                    },
                Err(_) => false,
            },
            Err(AnnotateError::Frame(e)) => frames_from(input@, 0) == Err::<Seq<(int, int, int)>, FrameError>(e),
            Err(_) => exists|p: int| #[trigger] bad_record_at(input@, p),
        },
{
    let ghost s = input@;
    let mut out: Vec<u8> = Vec::new();
    let ghost mut pieces: Seq<Seq<u8>> = Seq::empty();
    let ghost mut segs: Seq<Seq<(nat, Seq<char>, Seq<char>, Resolution)>> = Seq::empty();
    let ghost mut done: Seq<(int, int, int)> = Seq::empty();
    assert(old(annotators).calls() + concat_calls(segs) =~= old(annotators).calls());
    let mut pos: usize = 0;
    loop
        invariant
            s == input@,
            pos <= s.len(),
            annotators.wf(),
            annotators.kinds() == old(annotators).kinds(),
            annotators.len() == old(annotators).len(),
            frames_from(s, 0) == match frames_from(s, pos as int) {
                Ok(rest) => Ok(done + rest),
                Err(e) => Err::<Seq<(int, int, int)>, FrameError>(e),
            },
            stream_well_formed(s, 0) == stream_well_formed(s, pos as int),
            pieces.len() == done.len(),
            segs.len() == done.len(),
            out@ == concat(pieces),
            annotators.calls() == old(annotators).calls() + concat_calls(segs),
            forall|i: int|
                0 <= i < done.len() ==> #[trigger] record_fits(
                    old(annotators).kinds(),
                    s,
                    done[i],
                    pieces[i],
                    segs[i],
                ),
        decreases s.len() - pos,
    {
        proof {
            lemma_frame_at_bounds(s, pos as int);
        }
        match read_frame(input, pos) {
            Err(e) => {
                assert(!stream_well_formed(s, pos as int));
                return Err(AnnotateError::Frame(e));
            },
            Ok(None) => {
                assert(stream_well_formed(s, pos as int));
                assert(done + Seq::<(int, int, int)>::empty() =~= done);
                return Ok(out);
            },
            Ok(Some((b, e))) => {
                let payload = slice_range(input, b, e);
                let ghost before = out@;
                let ghost piece: Seq<u8>;
                let ghost calls_before = annotators.calls();
                let ghost seg: Seq<(nat, Seq<char>, Seq<char>, Resolution)>;
                let rewritten = match annotate_packet(payload, annotators) {
                    Ok(x) => {
                        proof {
                            let bx = output_of(x, payload@);
                            seg = choose|c: Seq<(nat, Seq<char>, Seq<char>, Resolution)>|
                                annotators.calls() == calls_before + c && #[trigger] rewrites_in_place(
                                    MessageKind::Packet,
                                    old(annotators).kinds(),
                                    payload@,
                                    bx,
                                    c,
                                );
                        }
                        x
                    },
                    Err(err) => {
                        proof {
                            assert(bad_record_at(s, pos as int));
                            assert(!stream_well_formed(s, pos as int));
                        }
                        return Err(err);
                    },
                };
                match rewritten {
                    Some(q) => {
                        put_frame(&mut out, q.as_slice());
                        proof {
                            piece = frame(q@);
                        }
                    },
                    None => {
                        put_bytes(&mut out, slice_range(input, pos, e));
                        proof {
                            piece = s.subrange(pos as int, e as int);
                        }
                    },
                }
                proof {
                    assert(out@ == before + piece);
                    lemma_concat_push(pieces, piece);
                    lemma_concat_calls_push(segs, seg);
                    let old_pieces = pieces;
                    let old_segs = segs;
                    let old_done = done;
                    pieces = pieces.push(piece);
                    segs = segs.push(seg);
                    done = done.push((pos as int, b as int, e as int));
                    assert(record_fits(
                        old(annotators).kinds(),
                        s,
                        done[old_done.len() as int],
                        pieces[old_done.len() as int],
                        segs[old_done.len() as int],
                    ));
                    assert forall|i: int| 0 <= i < old_done.len() implies pieces[i] == old_pieces[i]
                        && segs[i] == old_segs[i] && done[i] == old_done[i] by {}
                    match frames_from(s, e as int) {
                        Ok(rest) => {
                            assert(old_done + (seq![(pos as int, b as int, e as int)] + rest) =~= done + rest);
                        },
                        Err(_) => {},
                    }
                }
                pos = e;
            },
        }
    }
}

} // verus!
