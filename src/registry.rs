//! The map from device identifier to open session, and the decisions of the
//! poll loop that drains each session.
use vstd::prelude::*;
use vstd::string::StringSliceAdditionalSpecFns;
use crate::command::{normalize_command, normalized};
use crate::reassembler::{Reassembler, lines_of, rest_of, lines_view};

verus! {

/// Where a session stands in its life.
#[derive(Clone, Copy, Debug, PartialEq, Eq)]
pub enum SessionState {
    Connecting,
    Connected,
    Closing,
    Closed,
}

/// Why a registry operation failed.
#[derive(Debug, PartialEq, Eq)]
pub enum SessionError {
    /// A session for the identifier is already open.
    AlreadyOpen,
    /// No session for the identifier is open.
    NotOpen,
    /// The device could not be opened; the driver's words.
    OpenFailed(String),
    /// Reading from the device failed for another reason than a timeout.
    ReadFailed(String),
    /// Writing or flushing the device failed.
    WriteFailed(String),
}

/// What one bounded read from a device gave.
#[derive(Debug, PartialEq, Eq)]
pub enum ReadOutcome {
    /// The bytes read; possibly none.
    Bytes(Vec<u8>),
    /// The read timed out: the same as reading nothing.
    TimedOut,
    /// Any other read error, which ends the poll loop.
    Failed(String),
}

/// What the poll loop does after one read.
#[derive(Debug, PartialEq, Eq)]
pub enum PollStep {
    /// The session is gone: stop without touching the device again.
    Stop,
    /// Emit these lines, in order, then sleep and poll again.
    Emit(Vec<Vec<u8>>),
    /// The read failed: report the cause and stop.
    Fatal(String),
}

/// Names one session: its identifier and the generation that its opening
/// was given, so that a poll loop of an earlier session under the same
/// identifier does not mistake a later one for its own.
#[derive(Debug, PartialEq, Eq)]
pub struct SessionRef {
    pub identifier: String,
    pub generation: u64,
}

/// One open device: its identifier, its baud rate, its line buffer and its
/// handle.
#[derive(Debug)]
pub struct Session<H> {
    pub identifier: String,
    pub baud_rate: u32,
    pub generation: u64,
    pub state: SessionState,
    pub reassembler: Reassembler,
    pub handle: H,
}

/// Position `i` of `s` holds the session of identifier `k`.
pub open spec fn has_id<H>(s: Seq<Session<H>>, i: int, k: Seq<char>) -> bool {
    0 <= i < s.len() && s[i].identifier@ == k
}

/// No two sessions of `s` share an identifier.
pub open spec fn ids_unique<H>(s: Seq<Session<H>>) -> bool {
    forall|i: int, j: int|
        #![trigger s[i].identifier@, s[j].identifier@]
        0 <= i < s.len() && 0 <= j < s.len() && i != j ==> s[i].identifier@ != s[j].identifier@
}

/// Every session of `s` is connected.
pub open spec fn all_connected<H>(s: Seq<Session<H>>) -> bool {
    forall|i: int| 0 <= i < s.len() ==> #[trigger] s[i].state == SessionState::Connected
}

/// The sessions of `s` keyed by identifier.
pub open spec fn sessions_map<H>(s: Seq<Session<H>>) -> Map<Seq<char>, Session<H>> {
    Map::new(
        |k: Seq<char>| exists|i: int| has_id(s, i, k),
        |k: Seq<char>| s[choose|i: int| has_id(s, i, k)],
    )
}

proof fn lemma_map_index<H>(s: Seq<Session<H>>, j: int)
    requires
        ids_unique(s),
        0 <= j < s.len(),
    ensures
        sessions_map(s).contains_key(s[j].identifier@),
        sessions_map(s)[s[j].identifier@] == s[j],
{
    let k = s[j].identifier@;
    assert(has_id(s, j, k));
    let c = choose|i: int| has_id(s, i, k);
    assert(s[c].identifier@ == s[j].identifier@);
}

proof fn lemma_map_push<H>(s: Seq<Session<H>>, x: Session<H>)
    requires
        ids_unique(s),
        !sessions_map(s).contains_key(x.identifier@),
    ensures
        ids_unique(s.push(x)),
        sessions_map(s.push(x)) == sessions_map(s).insert(x.identifier@, x),
{
    let t = s.push(x);
    assert forall|i: int| 0 <= i < s.len() implies s[i].identifier@ != x.identifier@ by {
        assert(has_id(s, i, s[i].identifier@));
    }
    assert(ids_unique(t)) by {
        assert forall|i: int, j: int|
            0 <= i < t.len() && 0 <= j < t.len() && i != j implies #[trigger] t[i].identifier@
            != #[trigger] t[j].identifier@ by {
            if i < s.len() && j < s.len() {
                assert(t[i] == s[i] && t[j] == s[j]);
            }
        }
    }
    let m = sessions_map(s).insert(x.identifier@, x);
    assert forall|k: Seq<char>| #[trigger] sessions_map(t).contains_key(k) == m.contains_key(k) by {
        if m.contains_key(k) {
            if k == x.identifier@ {
                assert(has_id(t, s.len() as int, k));
            } else {
                let i = choose|i: int| has_id(s, i, k);
                assert(has_id(t, i, k));
            }
        }
        if sessions_map(t).contains_key(k) {
            let i = choose|i: int| has_id(t, i, k);
            if i < s.len() {
                assert(has_id(s, i, k));
            }
        }
    }
    assert forall|k: Seq<char>| #[trigger] m.contains_key(k) implies sessions_map(t)[k] == m[k] by {
        if k == x.identifier@ {
            lemma_map_index(t, s.len() as int);
        } else {
            let i = choose|i: int| has_id(s, i, k);
            lemma_map_index(s, i);
            lemma_map_index(t, i);
        }
    }
    assert(sessions_map(t) =~= m);
}

proof fn lemma_map_remove<H>(s: Seq<Session<H>>, j: int)
    requires
        ids_unique(s),
        0 <= j < s.len(),
    ensures
        ids_unique(s.remove(j)),
        sessions_map(s.remove(j)) == sessions_map(s).remove(s[j].identifier@),
{
    let t = s.remove(j);
    let kj = s[j].identifier@;
    assert(ids_unique(t)) by {
        assert forall|a: int, b: int|
            0 <= a < t.len() && 0 <= b < t.len() && a != b implies #[trigger] t[a].identifier@
            != #[trigger] t[b].identifier@ by {
            let a2 = if a < j { a } else { a + 1 };
            let b2 = if b < j { b } else { b + 1 };
            assert(t[a] == s[a2] && t[b] == s[b2]);
        }
    }
    let m = sessions_map(s).remove(kj);
    assert forall|k: Seq<char>| #[trigger] sessions_map(t).contains_key(k) == m.contains_key(k) by {
        if m.contains_key(k) {
            let i = choose|i: int| has_id(s, i, k);
            assert(i != j);
            if i < j {
                assert(has_id(t, i, k));
            } else {
                assert(has_id(t, i - 1, k));
            }
        }
        if sessions_map(t).contains_key(k) {
            let i = choose|i: int| has_id(t, i, k);
            let i2 = if i < j { i } else { i + 1 };
            assert(t[i] == s[i2]);
            assert(has_id(s, i2, k));
            assert(i2 != j);
        }
    }
    assert forall|k: Seq<char>| #[trigger] m.contains_key(k) implies sessions_map(t)[k] == m[k] by {
        let i = choose|i: int| has_id(s, i, k);
        lemma_map_index(s, i);
        assert(i != j);
        let i1 = if i < j { i } else { i - 1 };
        assert(t[i1] == s[i]);
        lemma_map_index(t, i1);
    }
    assert(sessions_map(t) =~= m);
}

proof fn lemma_map_update<H>(s: Seq<Session<H>>, j: int, x: Session<H>)
    requires
        ids_unique(s),
        0 <= j < s.len(),
        x.identifier@ == s[j].identifier@,
    ensures
        ids_unique(s.update(j, x)),
        sessions_map(s.update(j, x)) == sessions_map(s).insert(x.identifier@, x),
{
    let t = s.update(j, x);
    assert(ids_unique(t)) by {
        assert forall|a: int, b: int|
            0 <= a < t.len() && 0 <= b < t.len() && a != b implies #[trigger] t[a].identifier@
            != #[trigger] t[b].identifier@ by {
            assert(t[a].identifier@ == s[a].identifier@);
            assert(t[b].identifier@ == s[b].identifier@);
        }
    }
    let m = sessions_map(s).insert(x.identifier@, x);
    lemma_map_index(s, j);
    assert forall|k: Seq<char>| #[trigger] sessions_map(t).contains_key(k) == m.contains_key(k) by {
        if m.contains_key(k) {
            if k == x.identifier@ {
                assert(has_id(t, j, k));
            } else {
                let i = choose|i: int| has_id(s, i, k);
                assert(has_id(t, i, k));
            }
        }
        if sessions_map(t).contains_key(k) {
            let i = choose|i: int| has_id(t, i, k);
            assert(has_id(s, i, k));
        }
    }
    assert forall|k: Seq<char>| #[trigger] m.contains_key(k) implies sessions_map(t)[k] == m[k] by {
        if k == x.identifier@ {
            lemma_map_index(t, j);
        } else {
            let i = choose|i: int| has_id(s, i, k);
            lemma_map_index(s, i);
            lemma_map_index(t, i);
        }
    }
    assert(sessions_map(t) =~= m);
}

proof fn lemma_map_len<H>(s: Seq<Session<H>>)
    requires
        ids_unique(s),
    ensures
        sessions_map(s).dom().finite(),
        sessions_map(s).len() == s.len(),
    decreases s.len(),
{
    if s.len() == 0 {
        assert(sessions_map(s) =~= Map::<Seq<char>, Session<H>>::empty());
    } else {
        let t = s.drop_last();
        let x = s.last();
        assert(t.push(x) =~= s);
        assert(ids_unique(t)) by {
            assert forall|a: int, b: int|
                0 <= a < t.len() && 0 <= b < t.len() && a != b implies #[trigger] t[a].identifier@
                != #[trigger] t[b].identifier@ by {
                assert(t[a] == s[a] && t[b] == s[b]);
            }
        }
        if sessions_map(t).contains_key(x.identifier@) {
            let i = choose|i: int| has_id(t, i, x.identifier@);
            assert(s[i].identifier@ == s[s.len() - 1].identifier@);
        }
        lemma_map_push(t, x);
        lemma_map_len(t);
    }
}

/// The sessions that are open, keyed by device identifier: at most one per
/// identifier.
pub struct Registry<H> {
    sessions: Vec<Session<H>>,
    next_generation: u64,
}

impl<H> View for Registry<H> {
    type V = Map<Seq<char>, Session<H>>;

    closed spec fn view(&self) -> Map<Seq<char>, Session<H>> {
        sessions_map(self.sessions@)
    }
}

/// Once the session of a poll loop has been closed, the loop's reference is
/// no longer live, whatever else the registry holds: `is_live` is false for
/// it, so the loop reads no more, and `absorb` returns `Stop` for it whatever
/// a read in flight gave.
pub proof fn lemma_closed_session_stops<H>(before: Registry<H>, after: Registry<H>, r: SessionRef)
    requires
        after@ == before@.remove(r.identifier@),
    ensures
        !after.live(&r),
{
}

/// The generation that follows `g`, wrapping around at the top.
pub open spec fn following_generation(g: u64) -> u64 {
    if g < u64::MAX {
        (g + 1) as u64
    } else {
        0
    }
}

impl<H> Registry<H> {
    /// Identifiers are unique and every session held is connected.
    pub closed spec fn wf(&self) -> bool {
        ids_unique(self.sessions@) && all_connected(self.sessions@)
    }

    /// The generation that the next session opened will be given.
    pub closed spec fn next_generation(&self) -> u64 {
        self.next_generation
    }

    /// `r` names the session that is open now under its identifier.
    pub open spec fn live(&self, r: &SessionRef) -> bool {
        self@.contains_key(r.identifier@) && self@[r.identifier@].generation == r.generation
    }

    /// Every session held is connected.
    pub proof fn lemma_connected(&self, k: Seq<char>)
        requires
            self.wf(),
            self@.contains_key(k),
        ensures
            self@[k].state == SessionState::Connected,
    {
        let i = choose|i: int| has_id(self.sessions@, i, k);
        lemma_map_index(self.sessions@, i);
    }

    /// An empty registry.
    pub fn new() -> (r: Registry<H>)
        ensures
            r.wf(),
            r@ == Map::<Seq<char>, Session<H>>::empty(),
            r.next_generation() == 0,
    {
        let r = Registry { sessions: Vec::new(), next_generation: 0 };
        assert(r@ =~= Map::<Seq<char>, Session<H>>::empty());
        r
    }

    /// The number of open sessions.
    pub fn len(&self) -> (n: usize)
        requires
            self.wf(),
        ensures
            n == self@.len(),
    {
        proof {
            lemma_map_len(self.sessions@);
        }
        self.sessions.len()
    }

    /// The position of the session of identifier `id`, if there is one.
    fn find(&self, id: &String) -> (r: Option<usize>)
        ensures
            match r {
                Some(i) => has_id(self.sessions@, i as int, id@),
                None => !self@.contains_key(id@),
            },
    {
        let mut i: usize = 0;
        while i < self.sessions.len()
            invariant
                0 <= i <= self.sessions@.len(),
                forall|j: int| 0 <= j < i ==> !has_id(self.sessions@, j, id@),
            decreases self.sessions@.len() - i,
        {
            if self.sessions[i].identifier == *id {
                return Some(i);
            }
            i = i + 1;
        }
        None
    }

    /// Whether a session of identifier `id` is open.
    pub fn contains(&self, id: &String) -> (b: bool)
        ensures
            b == self@.contains_key(id@),
    {
        match self.find(id) {
            Some(i) => true,
            None => false,
        }
    }

    /// Whether `r` names the session that is open now under its identifier:
    /// a poll loop goes on only while this holds.
    pub fn is_live(&self, r: &SessionRef) -> (b: bool)
        requires
            self.wf(),
        ensures
            b == self.live(r),
    {
        match self.find(&r.identifier) {
            Some(i) => {
                proof {
                    lemma_map_index(self.sessions@, i as int);
                }
                self.sessions[i].generation == r.generation
            },
            None => false,
        }
    }

    /// Records the outcome of opening the device of identifier `id` at
    /// `baud_rate`. Fails with `AlreadyOpen`, and drops the new handle, if a
    /// session of that identifier is open; else fails with `OpenFailed` and
    /// the driver's words if the device could not be opened; else holds a new
    /// connected session with an empty line buffer and returns its reference.
    pub fn open(&mut self, id: &String, baud_rate: u32, device: Result<H, String>) -> (r: Result<
        SessionRef,
        SessionError,
    >)
        requires
            old(self).wf(),
        ensures
            final(self).wf(),
            old(self)@.contains_key(id@) ==> r == Err::<SessionRef, SessionError>(
                SessionError::AlreadyOpen,
            ),
            !old(self)@.contains_key(id@) && device is Err ==> r == Err::<SessionRef, SessionError>(
                SessionError::OpenFailed(device->Err_0),
            ),
            r is Err ==> final(self)@ == old(self)@ && final(self).next_generation()
                == old(self).next_generation(),
            !old(self)@.contains_key(id@) && device is Ok ==> {
                &&& r is Ok
                &&& r->Ok_0.identifier@ == id@
                &&& r->Ok_0.generation == old(self).next_generation()
                &&& final(self).next_generation() == following_generation(
                    old(self).next_generation(),
                )
                &&& final(self)@ == old(self)@.insert(id@, final(self)@[id@])
                &&& final(self)@[id@].identifier@ == id@
                &&& final(self)@[id@].baud_rate == baud_rate
                &&& final(self)@[id@].generation == old(self).next_generation()
                &&& final(self)@[id@].state == SessionState::Connected
                &&& final(self)@[id@].reassembler@ == Seq::<u8>::empty()
                &&& final(self)@[id@].handle == device->Ok_0
            },
    {
        if self.contains(id) {
            return Err(SessionError::AlreadyOpen);
        }
        let handle = match device {
            Ok(h) => h,
            Err(cause) => {
                return Err(SessionError::OpenFailed(cause));
            },
        };
        let generation: u64 = self.next_generation;
        let session = Session {
            identifier: id.clone(),
            baud_rate,
            generation,
            state: SessionState::Connected,
            reassembler: Reassembler::new(),
            handle,
        };
        proof {
            lemma_map_push(self.sessions@, session);
        }
        self.sessions.push(session);
        assert(all_connected(self.sessions@)) by {
            assert forall|i: int| 0 <= i < self.sessions@.len() implies #[trigger] self.sessions@[i].state
                == SessionState::Connected by {
                if i < old(self).sessions@.len() {
                    assert(self.sessions@[i] == old(self).sessions@[i]);
                }
            }
        }
        self.next_generation = if generation < u64::MAX {
            generation + 1
        } else {
            0
        };
        Ok(SessionRef { identifier: id.clone(), generation })
    }

    /// Closes the session of identifier `id`: fails with `NotOpen` if there
    /// is none; else removes it and hands it back marked `Closing`, so that
    /// dropping it releases the device.
    pub fn close(&mut self, id: &String) -> (r: Result<Session<H>, SessionError>)
        requires
            old(self).wf(),
        ensures
            final(self).wf(),
            final(self).next_generation() == old(self).next_generation(),
            !old(self)@.contains_key(id@) ==> r == Err::<Session<H>, SessionError>(
                SessionError::NotOpen,
            ) && final(self)@ == old(self)@,
            old(self)@.contains_key(id@) ==> {
                &&& r is Ok
                &&& final(self)@ == old(self)@.remove(id@)
                &&& r->Ok_0.identifier == old(self)@[id@].identifier
                &&& r->Ok_0.baud_rate == old(self)@[id@].baud_rate
                &&& r->Ok_0.generation == old(self)@[id@].generation
                &&& r->Ok_0.reassembler == old(self)@[id@].reassembler
                &&& r->Ok_0.handle == old(self)@[id@].handle
                &&& r->Ok_0.state == SessionState::Closing
            },
    {
        match self.find(id) {
            None => Err(SessionError::NotOpen),
            Some(i) => {
                proof {
                    lemma_map_index(self.sessions@, i as int);
                    lemma_map_remove(self.sessions@, i as int);
                }
                let mut session = self.sessions.remove(i);
                assert(all_connected(self.sessions@)) by {
                    assert forall|j: int| 0 <= j < self.sessions@.len() implies #[trigger] self.sessions@[j].state
                        == SessionState::Connected by {
                        let j2 = if j < i { j } else { j + 1 };
                        assert(self.sessions@[j] == old(self).sessions@[j2]);
                    }
                }
                session.state = SessionState::Closing;
                Ok(session)
            },
        }
    }

    /// The handle of the session of identifier `id`, through which the
    /// device is read and written: fails with `NotOpen` if there is none.
    pub fn handle_of(&self, id: &String) -> (r: Result<&H, SessionError>)
        requires
            self.wf(),
        ensures
            !self@.contains_key(id@) ==> r is Err && r->Err_0 == SessionError::NotOpen,
            self@.contains_key(id@) ==> r is Ok && *r->Ok_0 == self@[id@].handle,
    {
        match self.find(id) {
            None => Err(SessionError::NotOpen),
            Some(i) => {
                proof {
                    lemma_map_index(self.sessions@, i as int);
                }
                Ok(&self.sessions[i].handle)
            },
        }
    }

    /// What a command sends: the handle of the session of identifier `id`
    /// and the bytes to write to it, `command` with exactly one carriage
    /// return at its end. Fails with `NotOpen` if no such session is open.
    pub fn dispatch(&self, id: &String, command: &str) -> (r: Result<(&H, Vec<u8>), SessionError>)
        requires
            self.wf(),
        ensures
            !self@.contains_key(id@) ==> r is Err && r->Err_0 == SessionError::NotOpen,
            self@.contains_key(id@) ==> {
                &&& r is Ok
                &&& *r->Ok_0.0 == self@[id@].handle
                &&& r->Ok_0.1@ == normalized(command.spec_bytes())
            },
    {
        let bytes = normalize_command(command);
        match self.handle_of(id) {
            Ok(h) => Ok((h, bytes)),
            Err(e) => Err(e),
        }
    }

    /// The baud rate of the session of identifier `id`, if one is open.
    pub fn baud_rate_of(&self, id: &String) -> (r: Option<u32>)
        requires
            self.wf(),
        ensures
            r == (if self@.contains_key(id@) {
                Some(self@[id@].baud_rate)
            } else {
                None
            }),
    {
        match self.find(id) {
            None => None,
            Some(i) => {
                proof {
                    lemma_map_index(self.sessions@, i as int);
                }
                Some(self.sessions[i].baud_rate)
            },
        }
    }

    /// One step of the poll loop of the session named by `r`, after a read
    /// from its device gave `outcome`. If `r` no longer names the open
    /// session, the loop stops and nothing changes. A failed read removes the
    /// session, so that the device can be opened again, and ends the loop
    /// with the cause. A timeout completes no line. Bytes go to the session's
    /// line buffer, and the lines that they complete are emitted in order.
    pub fn absorb(&mut self, r: &SessionRef, outcome: ReadOutcome) -> (step: PollStep)
        requires
            old(self).wf(),
        ensures
            final(self).wf(),
            final(self).next_generation() == old(self).next_generation(),
            !old(self).live(r) ==> step == PollStep::Stop && final(self)@ == old(self)@,
            old(self).live(r) ==> match outcome {
                ReadOutcome::Failed(cause) => step == PollStep::Fatal(cause)
                    && final(self)@ == old(self)@.remove(r.identifier@),
                ReadOutcome::TimedOut => step is Emit && step->Emit_0@.len() == 0
                    && final(self)@ == old(self)@,
                ReadOutcome::Bytes(b) => {
                    let before = old(self)@[r.identifier@];
                    let after = final(self)@[r.identifier@];
                    &&& step is Emit
                    &&& lines_view(step->Emit_0@) == lines_of(before.reassembler@ + b@)
                    &&& final(self)@ == old(self)@.insert(r.identifier@, after)
                    &&& after.reassembler@ == rest_of(before.reassembler@ + b@)
                    &&& after.identifier == before.identifier
                    &&& after.baud_rate == before.baud_rate
                    &&& after.generation == before.generation
                    &&& after.state == before.state
                    &&& after.handle == before.handle
                },
            },
    {
        let i: usize = match self.find(&r.identifier) {
            None => {
                return PollStep::Stop;
            },
            Some(i) => i,
        };
        proof {
            lemma_map_index(self.sessions@, i as int);
        }
        if self.sessions[i].generation != r.generation {
            return PollStep::Stop;
        }
        match outcome {
            ReadOutcome::TimedOut => PollStep::Emit(Vec::new()),
            ReadOutcome::Failed(cause) => {
                proof {
                    lemma_map_remove(self.sessions@, i as int);
                }
                let _gone = self.sessions.remove(i);
                assert(all_connected(self.sessions@)) by {
                    assert forall|j: int| 0 <= j < self.sessions@.len() implies #[trigger] self.sessions@[j].state
                        == SessionState::Connected by {
                        let j2 = if j < i { j } else { j + 1 };
                        assert(self.sessions@[j] == old(self).sessions@[j2]);
                    }
                }
                PollStep::Fatal(cause)
            },
            ReadOutcome::Bytes(b) => {
                let mut session = self.sessions.remove(i);
                let lines = session.reassembler.feed(b.as_slice());
                proof {
                    lemma_map_update(old(self).sessions@, i as int, session);
                }
                self.sessions.insert(i, session);
                assert(self.sessions@ =~= old(self).sessions@.update(i as int, session));
                assert(all_connected(self.sessions@)) by {
                    assert forall|j: int| 0 <= j < self.sessions@.len() implies #[trigger] self.sessions@[j].state
                        == SessionState::Connected by {
                        if j != i {
                            assert(self.sessions@[j] == old(self).sessions@[j]);
                        }
                    }
                }
                proof {
                    lemma_map_index(self.sessions@, i as int);
                }
                PollStep::Emit(lines)
            },
        }
    }

    /// Fails with `AlreadyOpen` exactly when a session of identifier `id` is
    /// open: the test made before the device is opened.
    pub fn check_open(&self, id: &String) -> (r: Result<(), SessionError>)
        ensures
            r == (if self@.contains_key(id@) {
                Err(SessionError::AlreadyOpen)
            } else {
                Ok::<(), SessionError>(())
            }),
    {
        if self.contains(id) {
            Err(SessionError::AlreadyOpen)
        } else {
            Ok(())
        }
    }
}

} // verus!
