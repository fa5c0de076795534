//! Client-side validation of the response stream protocol.

use crate::client::ResponseStreamItem;
use crate::core_types::Trailers;
use crate::status::StatusCodeError;
use crate::status::StatusError;
use vstd::prelude::*;

verus! {

/// An interceptor that wraps every call's receive stream in a
/// [`RecvStreamValidator`] with `unary` passed on to it.
#[derive(Clone, Copy)]
pub struct ResponseValidator {
    unary: bool,
}

impl ResponseValidator {
    pub closed spec fn unary_of(&self) -> bool {
        self.unary
    }

    /// A validator for unary calls when `unary` is set, for streaming calls
    /// otherwise.
    pub fn new(unary: bool) -> (r: Self)
        ensures
            r.unary_of() == unary,
    {
        Self { unary }
    }

    /// Whether the wrapped calls are unary.
    pub fn unary(&self) -> (r: bool)
        ensures
            r == self.unary_of(),
    {
        self.unary
    }
}

/// Where a validated response stream stands in the protocol.
#[derive(Clone, Copy, PartialEq, Eq, Debug, Structural)]
pub enum RecvStreamState {
    AwaitingHeaders,
    AwaitingMessagesOrTrailers,
    AwaitingTrailers,
    Done,
}

/// The kind of a response stream item, with whether trailers report success.
#[derive(Clone, Copy, PartialEq, Eq, Debug, Structural)]
pub enum ItemKind {
    Headers,
    Message,
    TrailersOk,
    TrailersErr,
    StreamClosed,
}

pub open spec fn kind_of(item: ResponseStreamItem) -> ItemKind {
    match item {
        ResponseStreamItem::Headers(_) => ItemKind::Headers,
        ResponseStreamItem::Message => ItemKind::Message,
        ResponseStreamItem::Trailers(t) => if t.status_of() is Ok {
            ItemKind::TrailersOk
        } else {
            ItemKind::TrailersErr
        },
        ResponseStreamItem::StreamClosed => ItemKind::StreamClosed,
    }
}

/// Synthesized trailers that report an internal error with message `msg`.
pub open spec fn is_internal_error(item: ResponseStreamItem, msg: Seq<char>) -> bool {
    &&& item is Trailers
    &&& item->Trailers_0.status_of() is Err
    &&& item->Trailers_0.status_of()->Err_0.code_of() == StatusCodeError::Internal
    &&& item->Trailers_0.status_of()->Err_0.message_of() == msg
}

/// How the validator moves on receiving an item of kind `k` in state `s`:
/// the state it moves to, and `None` when it passes the item on or
/// `Some(msg)` when it answers with an internal error carrying `msg`.
pub open spec fn step(s: RecvStreamState, unary: bool, k: ItemKind) -> (RecvStreamState, Option<Seq<char>>) {
    match k {
        ItemKind::Headers => if s == RecvStreamState::AwaitingHeaders {
            (RecvStreamState::AwaitingMessagesOrTrailers, None)
        } else {
            (RecvStreamState::Done, Some("stream received multiple headers"@))
        },
        ItemKind::Message => if s == RecvStreamState::AwaitingMessagesOrTrailers {
            (if unary {
                RecvStreamState::AwaitingTrailers
            } else {
                RecvStreamState::AwaitingMessagesOrTrailers
            }, None)
        } else if s == RecvStreamState::AwaitingTrailers {
            (RecvStreamState::Done, Some("unary stream received multiple messages"@))
        } else {
            (RecvStreamState::Done, Some("stream received messages without headers"@))
        },
        ItemKind::TrailersOk => if unary && s != RecvStreamState::AwaitingTrailers {
            (RecvStreamState::Done, Some("unary stream received zero messages"@))
        } else {
            (RecvStreamState::Done, None)
        },
        ItemKind::TrailersErr => (RecvStreamState::Done, None),
        ItemKind::StreamClosed => (RecvStreamState::Done, Some("stream ended without trailers"@)),
    }
}

/// Wraps a client's receive stream and checks that what it yields follows the
/// response protocol.  A violation is answered with synthesized trailers
/// carrying an internal error, after which the stream only reports
/// `StreamClosed`.
pub struct RecvStreamValidator<R> {
    recv_stream: R,
    state: RecvStreamState,
    unary: bool,
}

impl<R> RecvStreamValidator<R> {
    pub closed spec fn state_of(&self) -> RecvStreamState {
        self.state
    }

    pub closed spec fn unary_of(&self) -> bool {
        self.unary
    }

    pub closed spec fn inner(&self) -> R {
        self.recv_stream
    }

    /// Wraps `recv_stream`.  If `unary` is set, the server is expected to send
    /// exactly one response message (after headers), or a trailers-only
    /// response.
    pub fn new(recv_stream: R, unary: bool) -> (r: Self)
        ensures
            r.state_of() == RecvStreamState::AwaitingHeaders,
            r.unary_of() == unary,
            r.inner() == recv_stream,
    {
        Self { recv_stream, state: RecvStreamState::AwaitingHeaders, unary }
    }

    /// Moves to `Done` and produces synthesized trailers carrying an internal
    /// error with message `s`.
    fn error(&mut self, s: String) -> (r: ResponseStreamItem)
        ensures
            final(self).state_of() == RecvStreamState::Done,
            final(self).unary_of() == old(self).unary_of(),
            final(self).inner() == old(self).inner(),
            is_internal_error(r, s@),
    {
        self.state = RecvStreamState::Done;
        ResponseStreamItem::Trailers(Trailers::new(Err(StatusError::new(StatusCodeError::Internal, s))))
    }

    /// Whether the stream has ended: once it has, the wrapped stream is not
    /// read any more and every read reports `StreamClosed`.
    pub fn is_done(&self) -> (r: bool)
        ensures
            r == (self.state_of() == RecvStreamState::Done),
    {
        matches!(self.state, RecvStreamState::Done)
    }

    /// The wrapped stream, to read the next item from.
    pub fn recv_stream_mut(&mut self) -> (r: &mut R)
        ensures
            *r == old(self).inner(),
            final(self).inner() == *final(r),
            final(self).state_of() == old(self).state_of(),
            final(self).unary_of() == old(self).unary_of(),
    {
        &mut self.recv_stream
    }

    /// Checks `item`, the next item read from the wrapped stream, against the
    /// protocol, and returns what the validated stream yields in its place.
    pub fn validate(&mut self, item: ResponseStreamItem) -> (r: ResponseStreamItem)
        ensures
            final(self).unary_of() == old(self).unary_of(),
            final(self).inner() == old(self).inner(),
            old(self).state_of() == RecvStreamState::Done ==> r is StreamClosed && final(self).state_of()
                == RecvStreamState::Done,
            old(self).state_of() != RecvStreamState::Done ==> ({
                let (next, err) = step(old(self).state_of(), old(self).unary_of(), kind_of(item));
                &&& final(self).state_of() == next
                &&& match err {
                    None => r == item,
                    Some(msg) => is_internal_error(r, msg),
                }
            }),
            kind_of(r) == yielded_kind(old(self).state_of(), old(self).unary_of(), kind_of(item)),
            final(self).state_of() == next_state(old(self).state_of(), old(self).unary_of(), kind_of(item)),
    {
        if matches!(self.state, RecvStreamState::Done) {
            return ResponseStreamItem::StreamClosed;
        }
        match item {
            ResponseStreamItem::Headers(_) => {
                if matches!(self.state, RecvStreamState::AwaitingHeaders) {
                    self.state = RecvStreamState::AwaitingMessagesOrTrailers;
                    item
                } else {
                    self.error(String::from_str("stream received multiple headers"))
                }
            },
            ResponseStreamItem::Message => {
                if matches!(self.state, RecvStreamState::AwaitingMessagesOrTrailers) {
                    if self.unary {
                        self.state = RecvStreamState::AwaitingTrailers;
                    }
                    item
                } else if matches!(self.state, RecvStreamState::AwaitingTrailers) {
                    self.error(String::from_str("unary stream received multiple messages"))
                } else {
                    self.error(String::from_str("stream received messages without headers"))
                }
            },
            ResponseStreamItem::Trailers(t) => {
                if self.unary && !matches!(self.state, RecvStreamState::AwaitingTrailers)
                    && t.status().is_ok() {
                    return self.error(String::from_str("unary stream received zero messages"));
                }
                self.state = RecvStreamState::Done;
                ResponseStreamItem::Trailers(t)
            },
            ResponseStreamItem::StreamClosed => {
                self.error(String::from_str("stream ended without trailers"))
            },
        }
    }
}

/// `s` is `h` Headers (0 or 1), then `m` Messages, then Trailers, then only
/// StreamClosed.  For a unary call, at most one message, and trailers
/// reporting success only after headers and exactly one message.
pub open spec fn response_shape(s: Seq<ItemKind>, unary: bool, h: int, m: int) -> bool {
    &&& 0 <= h <= 1
    &&& 0 <= m
    &&& h + m < s.len()
    &&& forall|i: int| 0 <= i < h ==> s[i] == ItemKind::Headers
    &&& forall|i: int| h <= i < h + m ==> s[i] == ItemKind::Message
    &&& s[h + m] == ItemKind::TrailersOk || s[h + m] == ItemKind::TrailersErr
    &&& forall|i: int| h + m < i < s.len() ==> s[i] == ItemKind::StreamClosed
    &&& unary ==> m <= 1
    &&& unary && s[h + m] == ItemKind::TrailersOk ==> h == 1 && m == 1
    &&& m > 0 ==> h == 1
}

/// `s` is a complete response: optionally Headers and then Messages, then
/// Trailers, then any number of StreamClosed.
pub open spec fn complete_response(s: Seq<ItemKind>, unary: bool) -> bool {
    exists|h: int, m: int| #[trigger] response_shape(s, unary, h, m)
}

/// What a validated stream has yielded so far, given the state it is in.
pub open spec fn yielded_so_far(st: RecvStreamState, unary: bool, s: Seq<ItemKind>) -> bool {
    match st {
        RecvStreamState::AwaitingHeaders => s.len() == 0,
        RecvStreamState::AwaitingMessagesOrTrailers => s.len() >= 1 && s[0] == ItemKind::Headers
            && (forall|i: int| 1 <= i < s.len() ==> s[i] == ItemKind::Message) && (unary ==> s.len()
            == 1),
        RecvStreamState::AwaitingTrailers => unary && s == seq![ItemKind::Headers, ItemKind::Message],
        RecvStreamState::Done => complete_response(s, unary),
    }
}

/// The kind of what the validator yields for an item of kind `k` in state
/// `st`.
pub open spec fn yielded_kind(st: RecvStreamState, unary: bool, k: ItemKind) -> ItemKind {
    if st == RecvStreamState::Done {
        ItemKind::StreamClosed
    } else {
        match step(st, unary, k).1 {
            None => k,
            Some(_) => ItemKind::TrailersErr,
        }
    }
}

/// The state after an item of kind `k` in state `st`.
pub open spec fn next_state(st: RecvStreamState, unary: bool, k: ItemKind) -> RecvStreamState {
    if st == RecvStreamState::Done {
        RecvStreamState::Done
    } else {
        step(st, unary, k).0
    }
}

/// Whatever the wrapped stream yields, the validated stream yields a prefix
/// of a well-formed response, and a complete one once the validator is done:
/// one validation step keeps what has been yielded consistent with the state.
pub proof fn lemma_validated_stream_follows_protocol(
    st: RecvStreamState,
    unary: bool,
    so_far: Seq<ItemKind>,
    k: ItemKind,
)
    requires
        yielded_so_far(st, unary, so_far),
    ensures
        yielded_so_far(
            next_state(st, unary, k),
            unary,
            so_far.push(yielded_kind(st, unary, k)),
        ),
{
    let out = so_far.push(yielded_kind(st, unary, k));
    let ns = next_state(st, unary, k);
    if st == RecvStreamState::Done {
        let (h, m) = choose|h: int, m: int| #[trigger] response_shape(so_far, unary, h, m);
        assert(response_shape(out, unary, h, m)) by {
            assert(forall|i: int| 0 <= i < so_far.len() ==> out[i] == so_far[i]);
        }
    } else if ns == RecvStreamState::Done {
        let yk = yielded_kind(st, unary, k);
        assert(yk == ItemKind::TrailersOk || yk == ItemKind::TrailersErr);
        match st {
            RecvStreamState::AwaitingHeaders => {
                assert(response_shape(out, unary, 0, 0)) by {
                    assert(out[0] == yk);
                }
            },
            RecvStreamState::AwaitingMessagesOrTrailers => {
                let m = so_far.len() - 1;
                assert(response_shape(out, unary, 1, m)) by {
                    assert(out[1 + m] == yk);
                    assert(forall|i: int| 0 <= i < so_far.len() ==> out[i] == so_far[i]);
                }
            },
            RecvStreamState::AwaitingTrailers => {
                assert(response_shape(out, unary, 1, 1)) by {
                    assert(out[2] == yk);
                    assert(out[0] == ItemKind::Headers && out[1] == ItemKind::Message);
                }
            },
            RecvStreamState::Done => {},
        }
    } else {
        assert(forall|i: int| 0 <= i < so_far.len() ==> out[i] == so_far[i]);
        if st == RecvStreamState::AwaitingMessagesOrTrailers && ns == RecvStreamState::AwaitingTrailers {
            assert(out =~= seq![ItemKind::Headers, ItemKind::Message]);
        }
    }
}

/// Whether the validator passes an item of kind `k` on unchanged in state
/// `st` (once done, only a `StreamClosed` read stays what it was).
pub open spec fn passed_on(st: RecvStreamState, unary: bool, k: ItemKind) -> bool {
    if st == RecvStreamState::Done {
        k == ItemKind::StreamClosed
    } else {
        step(st, unary, k).1 is None
    }
}

/// Whether the validator, starting in state `st`, passes every item of the
/// kinds `s` on unchanged.
pub open spec fn passes_all(st: RecvStreamState, unary: bool, s: Seq<ItemKind>) -> bool
    decreases s.len(),
{
    if s.len() == 0 {
        true
    } else {
        passed_on(st, unary, s[0]) && passes_all(next_state(st, unary, s[0]), unary, s.drop_first())
    }
}

proof fn lemma_closed_tail_passes(unary: bool, s: Seq<ItemKind>)
    requires
        forall|i: int| 0 <= i < s.len() ==> s[i] == ItemKind::StreamClosed,
    ensures
        passes_all(RecvStreamState::Done, unary, s),
    decreases s.len(),
{
    if s.len() > 0 {
        assert(s[0] == ItemKind::StreamClosed);
        let r = s.drop_first();
        assert forall|i: int| 0 <= i < r.len() implies r[i] == ItemKind::StreamClosed by {
            assert(r[i] == s[i + 1]);
        }
        lemma_closed_tail_passes(unary, r);
    }
}

proof fn lemma_trailers_pass(st: RecvStreamState, unary: bool, s: Seq<ItemKind>)
    requires
        st != RecvStreamState::Done,
        s.len() >= 1,
        s[0] == ItemKind::TrailersErr || (s[0] == ItemKind::TrailersOk && (!unary || st
            == RecvStreamState::AwaitingTrailers)),
        forall|i: int| 1 <= i < s.len() ==> s[i] == ItemKind::StreamClosed,
    ensures
        passes_all(st, unary, s),
{
    let r = s.drop_first();
    assert forall|i: int| 0 <= i < r.len() implies r[i] == ItemKind::StreamClosed by {
        assert(r[i] == s[i + 1]);
    }
    lemma_closed_tail_passes(unary, r);
}

proof fn lemma_messages_pass(s: Seq<ItemKind>, m: int)
    requires
        0 <= m < s.len(),
        forall|i: int| 0 <= i < m ==> s[i] == ItemKind::Message,
        s[m] == ItemKind::TrailersOk || s[m] == ItemKind::TrailersErr,
        forall|i: int| m < i < s.len() ==> s[i] == ItemKind::StreamClosed,
    ensures
        passes_all(RecvStreamState::AwaitingMessagesOrTrailers, false, s),
    decreases m,
{
    if m == 0 {
        lemma_trailers_pass(RecvStreamState::AwaitingMessagesOrTrailers, false, s);
    } else {
        let r = s.drop_first();
        assert forall|i: int| 0 <= i < m - 1 implies r[i] == ItemKind::Message by {
            assert(r[i] == s[i + 1]);
        }
        assert forall|i: int| m - 1 < i < r.len() implies r[i] == ItemKind::StreamClosed by {
            assert(r[i] == s[i + 1]);
        }
        assert(r[m - 1] == s[m]);
        lemma_messages_pass(r, m - 1);
    }
}

/// The validator only ever rejects what breaks the protocol: a well-formed
/// response (headers, the messages, trailers, then only `StreamClosed`;
/// for a unary call at most one message, and exactly one with successful
/// trailers) is passed on item by item without any change.
pub proof fn lemma_well_formed_response_passes(unary: bool, s: Seq<ItemKind>)
    requires
        complete_response(s, unary),
    ensures
        passes_all(RecvStreamState::AwaitingHeaders, unary, s),
{
    let (h, m) = choose|h: int, m: int| #[trigger] response_shape(s, unary, h, m);
    assert(response_shape(s, unary, h, m));
    if h == 0 {
        assert(m == 0);
        lemma_trailers_pass(RecvStreamState::AwaitingHeaders, unary, s);
    } else {
        assert(s[0] == ItemKind::Headers);
        let r = s.drop_first();
        assert forall|i: int| 0 <= i < m implies r[i] == ItemKind::Message by {
            assert(r[i] == s[i + 1]);
        }
        assert forall|i: int| m < i < r.len() implies r[i] == ItemKind::StreamClosed by {
            assert(r[i] == s[i + 1]);
        }
        assert(r[m] == s[1 + m]);
        if unary {
            if m == 0 {
                lemma_trailers_pass(RecvStreamState::AwaitingMessagesOrTrailers, unary, r);
            } else {
                assert(r[0] == ItemKind::Message);
                let r2 = r.drop_first();
                assert(r2[0] == r[1]);
                assert forall|i: int| 1 <= i < r2.len() implies r2[i] == ItemKind::StreamClosed by {
                    assert(r2[i] == r[i + 1]);
                }
                lemma_trailers_pass(RecvStreamState::AwaitingTrailers, unary, r2);
                assert(passes_all(RecvStreamState::AwaitingMessagesOrTrailers, unary, r));
            }
        } else {
            lemma_messages_pass(r, m);
        }
        assert(passes_all(RecvStreamState::AwaitingMessagesOrTrailers, unary, r));
        assert(passes_all(RecvStreamState::AwaitingHeaders, unary, s));
    }
}

} // verus!
