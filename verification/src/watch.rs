//! The long poll: a response that waits until a file has changed.

use crate::http::{HttpResponse, ResponseView};
use crate::serve::{get_file, get_response};
use vstd::prelude::*;
use vstd::utf8::*;

verus! {

/// The time between two looks at the file, in milliseconds.
pub const POLL_INTERVAL_MILLIS: u64 = 100;

/// What a look at the file leads to.
#[derive(Debug, Clone, Copy, PartialEq, Eq, Hash, Structural)]
pub enum Poll {
    /// Nothing has changed: wait for one interval and look again.
    Wait,
    /// The file has changed: answer as `GET` does, and close.
    Changed,
    /// The file can no longer be read: answer with a failure, and close.
    Unreadable,
    /// The session has answered: nothing is left to do.
    Closed,
}

/// What the look of an armed session with the given baseline leads to, for
/// the given modification time; `None` stands for a file that cannot be
/// read.
pub open spec fn poll_of(baseline: u128, modified: Option<u128>) -> Poll {
    match modified {
        None => Poll::Unreadable,
        Some(time) => if time == baseline {
            Poll::Wait
        } else {
            Poll::Changed
        },
    }
}

/// What each of a row of looks leads to, for a session that is armed or
/// not when the first of them is taken.
pub open spec fn polls_of(armed: bool, baseline: u128, looks: Seq<Option<u128>>) -> Seq<Poll>
    decreases looks.len(),
{
    if looks.len() == 0 {
        Seq::empty()
    } else if !armed {
        seq![Poll::Closed] + polls_of(false, baseline, looks.drop_first())
    } else {
        let poll = poll_of(baseline, looks[0]);
        seq![poll] + polls_of(poll == Poll::Wait, baseline, looks.drop_first())
    }
}

/// The index of the first look that does not show the baseline again; the
/// number of looks where all of them do.
pub open spec fn first_change(baseline: u128, looks: Seq<Option<u128>>) -> nat
    decreases looks.len(),
{
    if looks.len() == 0 || looks[0] != Some(baseline) {
        0
    } else {
        1 + first_change(baseline, looks.drop_first())
    }
}

/// A session that holds a `WATCH` request back until the file that it
/// names has changed.
#[derive(Debug)]
pub struct WatchSession {
    path: String,
    baseline: u128,
    armed: bool,
}

/// The mathematical value of a [`WatchSession`].
pub struct WatchView {
    pub path: Seq<char>,
    pub baseline: u128,
    pub armed: bool,
}

impl View for WatchSession {
    type V = WatchView;

    closed spec fn view(&self) -> WatchView {
        WatchView { path: self.path@, baseline: self.baseline, armed: self.armed }
    }
}

impl WatchSession {
    /// Starts a session for the file at `path`, given its modification
    /// time. A file whose time cannot be read is answered at once, with
    /// `500 Internal Server Error`.
    pub fn arm(path: String, modified: Option<u128>) -> (armed: Result<WatchSession, HttpResponse>)
        ensures
            match modified {
                Some(time) => armed matches Ok(session) && session@ == (WatchView {
                    path: path@,
                    baseline: time,
                    armed: true,
                }),
                None => armed matches Err(response) && response@
                    == ResponseView::internal_server_error(),
            },
    {
        match modified {
            Some(baseline) => Ok(WatchSession { path, baseline, armed: true }),
            None => Err(HttpResponse::internal_server_error()),
        }
    }

    /// The path of the watched file.
    pub fn path(&self) -> (path: &str)
        ensures
            path@ == self@.path,
    {
        self.path.as_str()
    }

    /// Whether the session still waits for a change.
    pub fn is_armed(&self) -> (armed: bool)
        ensures
            armed == self@.armed,
    {
        self.armed
    }

    /// Takes one look at the file: its modification time, or `None` where
    /// that cannot be read. The session stays armed as long as the time is
    /// that of the baseline, and is closed by the first look that shows
    /// anything else.
    pub fn poll(&mut self, modified: Option<u128>) -> (poll: Poll)
        ensures
            poll == if old(self)@.armed {
                poll_of(old(self)@.baseline, modified)
            } else {
                Poll::Closed
            },
            final(self)@ == (WatchView { armed: poll == Poll::Wait, ..old(self)@ }),
    {
        if !self.armed {
            return Poll::Closed;
        }
        let poll = match modified {
            None => Poll::Unreadable,
            Some(time) => {
                if time == self.baseline {
                    Poll::Wait
                } else {
                    Poll::Changed
                }
            },
        };
        self.armed = poll == Poll::Wait;
        poll
    }

    /// Takes a row of looks, one after the other. The session is armed
    /// afterwards if it was armed before and every look showed the
    /// baseline again.
    pub fn poll_all(&mut self, looks: &[Option<u128>]) -> (polls: Vec<Poll>)
        ensures
            polls@ == polls_of(old(self)@.armed, old(self)@.baseline, looks@),
            final(self)@ == (WatchView {
                armed: old(self)@.armed && first_change(old(self)@.baseline, looks@) == looks@.len(),
                ..old(self)@
            }),
    {
        let mut polls: Vec<Poll> = Vec::new();
        let mut n: usize = 0;
        assert(looks@.skip(0) =~= looks@);
        while n < looks.len()
            invariant
                n <= looks@.len(),
                self@.path == old(self)@.path,
                self@.baseline == old(self)@.baseline,
                polls_of(old(self)@.armed, old(self)@.baseline, looks@) == polls@ + polls_of(
                    self@.armed,
                    self@.baseline,
                    looks@.skip(n as int),
                ),
                (old(self)@.armed && first_change(old(self)@.baseline, looks@) == looks@.len())
                    == (self@.armed && first_change(self@.baseline, looks@.skip(n as int))
                    == looks@.len() - n),
            decreases looks@.len() - n,
        {
            let ghost rest = looks@.skip(n as int);
            let ghost before = polls@;
            let poll = self.poll(looks[n]);
            polls.push(poll);
            proof {
                assert(rest.drop_first() =~= looks@.skip(n + 1));
                assert(before + (seq![poll] + polls_of(
                    self@.armed,
                    self@.baseline,
                    rest.drop_first(),
                )) =~= polls@ + polls_of(self@.armed, self@.baseline, rest.drop_first()));
            }
            n = n + 1;
        }
        assert(polls@ + Seq::<Poll>::empty() =~= polls@);
        polls
    }

    /// The answer that a look leads to: for a file that has changed, that
    /// of `GET` for the file, given what reading it gave; for a file that
    /// cannot be looked at any more, `500 Internal Server Error`; none
    /// while the session waits and none once it is closed.
    pub fn answer(&self, poll: Poll, content: Option<Vec<u8>>) -> (response: Option<HttpResponse>)
        ensures
            match answer_to(
                self@.path,
                poll,
                match content {
                    Some(bytes) => Some(bytes@),
                    None => None,
                },
            ) {
                Some(view) => response matches Some(r) && r@ == view,
                None => response is None,
            },
    {
        match poll {
            Poll::Changed => Some(get_file(self.path.as_str(), content)),
            Poll::Unreadable => Some(HttpResponse::internal_server_error()),
            _ => None,
        }
    }
}

/// The answer that a look at the file at `path` leads to.
pub open spec fn answer_to(path: Seq<char>, poll: Poll, content: Option<Seq<u8>>) -> Option<
    ResponseView,
> {
    match poll {
        Poll::Changed => Some(get_response(path, content)),
        Poll::Unreadable => Some(ResponseView::internal_server_error()),
        _ => None,
    }
}

/// An armed session answers once and only once: every look before the
/// first one that does not show the baseline again is answered with a wait;
/// that look is answered with the file where it shows another time and with
/// a failure where the file cannot be read; and every look after it finds
/// the session closed.
pub proof fn lemma_watch_answers_once(baseline: u128, looks: Seq<Option<u128>>)
    ensures
        polls_of(true, baseline, looks).len() == looks.len(),
        first_change(baseline, looks) <= looks.len(),
        forall|i: int|
            0 <= i < first_change(baseline, looks) ==> looks[i] == Some(baseline) && polls_of(
                true,
                baseline,
                looks,
            )[i] == Poll::Wait,
        first_change(baseline, looks) < looks.len() ==> polls_of(true, baseline, looks)[first_change(
            baseline,
            looks,
        ) as int] == (if looks[first_change(baseline, looks) as int] is Some {
            Poll::Changed
        } else {
            Poll::Unreadable
        }),
        forall|i: int|
            first_change(baseline, looks) < i < looks.len() ==> polls_of(true, baseline, looks)[i]
                == Poll::Closed,
    decreases looks.len(),
{
    if looks.len() > 0 {
        let rest = looks.drop_first();
        let polls = polls_of(true, baseline, looks);
        if looks[0] == Some(baseline) {
            lemma_watch_answers_once(baseline, rest);
            let later = polls_of(true, baseline, rest);
            assert(polls =~= seq![Poll::Wait] + later);
            assert forall|i: int| 0 <= i < first_change(baseline, looks) implies looks[i] == Some(
                baseline,
            ) && polls[i] == Poll::Wait by {
                if i > 0 {
                    assert(looks[i] == rest[i - 1]);
                    assert(polls[i] == later[i - 1]);
                }
            }
            assert forall|i: int| first_change(baseline, looks) < i < looks.len() implies polls[i]
                == Poll::Closed by {
                assert(polls[i] == later[i - 1]);
            }
            if first_change(baseline, looks) < looks.len() {
                let at = first_change(baseline, looks) as int;
                assert(polls[at] == later[at - 1]);
                assert(looks[at] == rest[at - 1]);
            }
        } else {
            lemma_closed_stays_closed(baseline, rest);
            let later = polls_of(false, baseline, rest);
            assert(polls =~= seq![poll_of(baseline, looks[0])] + later);
            assert forall|i: int| 0 < i < looks.len() implies polls[i] == Poll::Closed by {
                assert(polls[i] == later[i - 1]);
            }
        }
    }
}

/// A closed session answers to nothing.
pub proof fn lemma_closed_stays_closed(baseline: u128, looks: Seq<Option<u128>>)
    ensures
        polls_of(false, baseline, looks).len() == looks.len(),
        forall|i: int| 0 <= i < looks.len() ==> polls_of(false, baseline, looks)[i] == Poll::Closed,
    decreases looks.len(),
{
    if looks.len() > 0 {
        let rest = looks.drop_first();
        lemma_closed_stays_closed(baseline, rest);
        let later = polls_of(false, baseline, rest);
        assert forall|i: int| 0 <= i < looks.len() implies polls_of(false, baseline, looks)[i]
            == Poll::Closed by {
            if i > 0 {
                assert(polls_of(false, baseline, looks)[i] == later[i - 1]);
            }
        }
    }
}

} // verus!
