//! Background refresh of a review: what a preview holds, which change a refresh request
//! previews, and the request/reply bookkeeping with the worker that runs `git`.
use std::sync::mpsc::{Receiver, Sender, TryRecvError};

use vstd::prelude::*;

use crate::git::{copy_change, Change, DiffLine, Mode, Snapshot, Sources};
use crate::text::push_str;

verus! {

/// The patch of the selected change, the sources used to highlight it, and a warning when the
/// sources could not be read.
#[derive(PartialEq, Eq)]
pub struct Preview {
    pub patch: Vec<DiffLine>,
    pub sources: Sources,
    pub warning: Option<String>,
}

/// Whether some patch line carries a line number, so that sources are worth reading.
pub open spec fn has_numbered_line(patch: Seq<DiffLine>) -> bool {
    exists|i: int| 0 <= i < patch.len() && (#[trigger] patch[i].old is Some || patch[i].new is Some)
}

/// No sources.
pub open spec fn no_sources(s: Sources) -> bool {
    s.old is None && s.new is None
}

impl Preview {
    /// An empty preview.
    pub fn empty() -> (res: Preview)
        ensures
            res.patch@.len() == 0,
            no_sources(res.sources),
            res.warning is None,
    {
        Preview { patch: Vec::new(), sources: Sources { old: None, new: None }, warning: None }
    }

    /// Whether the sources of a change should be read for this patch (some line is numbered).
    pub fn needs_sources(patch: &Vec<DiffLine>) -> (res: bool)
        ensures
            res == has_numbered_line(patch@),
    {
        let mut i: usize = 0;
        while i < patch.len()
            invariant
                i <= patch.len(),
                forall|k: int| 0 <= k < i ==> patch@[k].old is None && patch@[k].new is None,
            decreases patch.len() - i,
        {
            if patch[i].old.is_some() || patch[i].new.is_some() {
                assert(patch@[i as int].old is Some || patch@[i as int].new is Some);
                return true;
            }
            i += 1;
        }
        false
    }

    /// Assembles a preview from a patch and, when the patch needs them, the outcome of reading
    /// the sources: read sources are kept; a failure leaves no sources and a warning.
    pub fn read(patch: Vec<DiffLine>, sources: Option<Result<Sources, String>>) -> (res: Preview)
        requires
            sources is Some <==> has_numbered_line(patch@),
        ensures
            res.patch@ == patch@,
            match sources {
                None => no_sources(res.sources) && res.warning is None,
                Some(Ok(s)) => res.sources == s && res.warning is None,
                Some(Err(m)) => {
                    &&& no_sources(res.sources)
                    &&& res.warning is Some
                    &&& res.warning.unwrap()@ == "Could not read source for highlighting: "@ + m@
                },
            },
    {
        match sources {
            None => Preview { patch, sources: Sources { old: None, new: None }, warning: None },
            Some(Ok(s)) => Preview { patch, sources: s, warning: None },
            Some(Err(m)) => {
                let mut w = String::from_str("Could not read source for highlighting: ");
                push_str(&mut w, m.as_str());
                Preview { patch, sources: Sources { old: None, new: None }, warning: Some(w) }
            },
        }
    }
}

/// A refresh request: which comparison to re-read, which change to preview, and the
/// generation of the review state it was made for.
pub struct Request {
    pub generation: u64,
    pub mode: Mode,
    pub selected: Option<Change>,
    pub ignore_whitespace: bool,
}

/// The result of a refresh: the new snapshot and, when the selected change is still there,
/// its preview.
pub struct Update {
    pub snapshot: Snapshot,
    pub preview: Option<(Change, Preview)>,
}

/// The change of `changes` to preview for a selected path: the first one with that path.
pub open spec fn preview_index_spec(changes: Seq<Change>, selected: Option<Change>) -> Option<int> {
    match selected {
        None => None,
        Some(s) => if exists|i: int| 0 <= i < changes.len() && changes[i].path@ == s.path@ {
            Some(
                choose|i: int|
                    0 <= i < changes.len() && changes[i].path@ == s.path@ && forall|j: int|
                        0 <= j < i ==> changes[j].path@ != s.path@,
            )
        } else {
            None
        },
    }
}

/// Whether two byte strings are equal.
pub fn bytes_eq(a: &Vec<u8>, b: &Vec<u8>) -> (res: bool)
    ensures
        res == (a@ == b@),
{
    if a.len() != b.len() {
        return false;
    }
    let mut i: usize = 0;
    while i < a.len()
        invariant
            a.len() == b.len(),
            i <= a.len(),
            forall|k: int| 0 <= k < i ==> a@[k] == b@[k],
        decreases a.len() - i,
    {
        if a[i] != b[i] {
            return false;
        }
        i += 1;
    }
    assert(a@ =~= b@);
    true
}

impl Request {
    /// Which change of the refreshed snapshot to preview: the first with the selected path.
    pub fn preview_index(&self, snapshot: &Snapshot) -> (res: Option<usize>)
        ensures
            match res {
                None => preview_index_spec(snapshot.changes@, self.selected) is None,
                Some(i) => preview_index_spec(snapshot.changes@, self.selected) == Some(i as int)
                    && i < snapshot.changes.len(),
            },
    {
        let selected = match &self.selected {
            None => return None,
            Some(s) => s,
        };
        let mut i: usize = 0;
        while i < snapshot.changes.len()
            invariant
                i <= snapshot.changes.len(),
                self.selected == Some(*selected),
                forall|j: int| 0 <= j < i ==> snapshot.changes@[j].path@ != selected.path@,
            decreases snapshot.changes.len() - i,
        {
            if bytes_eq(&snapshot.changes[i].path, &selected.path) {
                proof {
                    let cs = snapshot.changes@;
                    let p = selected.path@;
                    assert(0 <= i < cs.len() && cs[i as int].path@ == p);
                    assert(exists|k: int|
                        0 <= k < cs.len() && cs[k].path@ == p && forall|j: int|
                            0 <= j < k ==> cs[j].path@ != p) by {
                        assert(0 <= i < cs.len() && cs[i as int].path@ == p && forall|j: int|
                            0 <= j < i ==> cs[j].path@ != p);
                    }
                    let chosen = choose|k: int|
                        0 <= k < cs.len() && cs[k].path@ == p && forall|j: int|
                            0 <= j < k ==> cs[j].path@ != p;
                    if chosen < i {
                        assert(cs[chosen].path@ != p);
                    } else if chosen > i {
                        assert(cs[i as int].path@ != p);
                    }
                    assert(chosen == i);
                    assert(exists|k: int| 0 <= k < cs.len() && cs[k].path@ == p);
                    assert(self.selected == Some(*selected));
                }
                return Some(i);
            }
            i += 1;
        }
        None
    }

    /// Assembles the result of a refresh from the new snapshot and, when a change was found to
    /// preview, the outcome of reading its preview: a failed read fails the refresh.
    pub fn read(&self, snapshot: Snapshot, preview: Option<Result<Preview, String>>) -> (res: Result<
        Update,
        String,
    >)
        requires
            preview is Some <==> preview_index_spec(snapshot.changes@, self.selected) is Some,
        ensures
            match preview {
                None => {
                    &&& res is Ok
                    &&& res.unwrap().preview is None
                    &&& res.unwrap().snapshot == snapshot
                },
                Some(Ok(p)) => {
                    &&& res is Ok
                    &&& res.unwrap().snapshot == snapshot
                    &&& res.unwrap().preview is Some
                    &&& res.unwrap().preview.unwrap().1 == p
                    &&& res.unwrap().preview.unwrap().0@ == snapshot.changes@[preview_index_spec(
                        snapshot.changes@,
                        self.selected,
                    ).unwrap()]@
                },
                Some(Err(m)) => res == Err::<Update, String>(m),
            },
    {
        let index = self.preview_index(&snapshot);
        match preview {
            None => Ok(Update { snapshot, preview: None }),
            Some(Ok(p)) => {
                let i = index.unwrap();
                let change = copy_change(&snapshot.changes[i]);
                Ok(Update { snapshot, preview: Some((change, p)) })
            },
            Some(Err(m)) => Err(m),
        }
    }
}

/// A reply of the refresh worker: the request and what reading it gave.
pub type Reply = (Request, Result<Update, String>);

#[verifier::external_type_specification]
#[verifier::external_body]
#[verifier::reject_recursive_types(T)]
pub struct ExSender<T>(Sender<T>);

#[verifier::external_type_specification]
#[verifier::external_body]
#[verifier::reject_recursive_types(T)]
pub struct ExReceiver<T>(Receiver<T>);

/// The requests sent on a request channel so far, oldest first.
pub uninterp spec fn sent_requests(channel: Sender<Request>) -> Seq<Request>;

/// `Sender::send`: the request goes on the channel, unless the receiving worker is gone
/// (then it is handed back and dropped). Stated: when it was sent, it is the channel's
/// latest request; when not, the channel holds what it held. Whether the worker is still
/// there is not stated.
#[verifier::external_body]
fn send_request(requests: &mut Sender<Request>, request: Request) -> (sent: bool)
    ensures
        sent ==> sent_requests(*final(requests)) == sent_requests(*old(requests)).push(request),
        !sent ==> sent_requests(*final(requests)) == sent_requests(*old(requests)),
{
    requests.send(request).is_ok()
}

/// What the reply channel held.
pub enum Received {
    Ready(Reply),
    Empty,
    Disconnected,
}

/// `Receiver::try_recv`: a reply, none yet, or a stopped worker. Which one depends on the
/// worker, so nothing is stated of the result.
#[verifier::external_body]
fn try_receive(replies: &Receiver<Reply>) -> (res: Received) {
    match replies.try_recv() {
        Ok(reply) => Received::Ready(reply),
        Err(TryRecvError::Empty) => Received::Empty,
        Err(TryRecvError::Disconnected) => Received::Disconnected,
    }
}

/// The channel ends of a refresh worker, and whether a request is in flight.
pub struct Poller {
    requests: Sender<Request>,
    replies: Receiver<Reply>,
    running: bool,
}

impl Poller {
    /// Whether a request is in flight.
    pub closed spec fn in_flight(&self) -> bool {
        self.running
    }

    /// The channel that carries requests to the worker.
    pub closed spec fn request_channel(&self) -> Sender<Request> {
        self.requests
    }

    /// The requests this poller has sent to the worker, oldest first.
    pub closed spec fn sent(&self) -> Seq<Request> {
        sent_requests(self.requests)
    }

    /// The channel that carries replies back from the worker.
    pub closed spec fn reply_channel(&self) -> Receiver<Reply> {
        self.replies
    }

    /// Whether a request is in flight.
    pub fn running(&self) -> (res: bool)
        ensures
            res == self.in_flight(),
    {
        self.running
    }

    /// A poller over the channels of a started worker, with no request in flight.
    pub fn connect(requests: Sender<Request>, replies: Receiver<Reply>) -> (res: Poller)
        ensures
            !res.in_flight(),
            res.request_channel() == requests,
            res.reply_channel() == replies,
            res.sent() == sent_requests(requests),
    {
        Poller { requests, replies, running: false }
    }

    /// Sends a request to the worker unless one is in flight (then the new request is dropped
    /// unsent); at most one request is outstanding.
    pub fn request(&mut self, request: Request) -> (res: Result<(), String>)
        ensures
            old(self).in_flight() ==> res is Ok && final(self).in_flight() && final(self).sent() == old(
                self,
            ).sent(),
            !old(self).in_flight() && res is Ok ==> final(self).in_flight() && final(self).sent() == old(
                self,
            ).sent().push(request),
            res matches Err(m) ==> !final(self).in_flight() && final(self).sent() == old(self).sent() && m@
                == "sending on a closed channel"@,
            final(self).reply_channel() == old(self).reply_channel(),
    {
        if !self.running {
            if !send_request(&mut self.requests, request) {
                return Err(String::from_str("sending on a closed channel"));
            }
            self.running = true;
        }
        Ok(())
    }

    /// Takes a reply when one is ready; a reply ends the request in flight.
    pub fn take_ready(&mut self) -> (res: Result<Option<Reply>, String>)
        ensures
            res matches Ok(Some(_)) ==> !final(self).in_flight(),
            res matches Ok(None) ==> final(self).in_flight() == old(self).in_flight(),
            res matches Err(m) ==> final(self).in_flight() == old(self).in_flight() && m@
                == "Git refresh worker stopped"@,
            final(self).sent() == old(self).sent(),
    {
        match try_receive(&self.replies) {
            Received::Ready(reply) => {
                self.running = false;
                Ok(Some(reply))
            },
            Received::Empty => Ok(None),
            Received::Disconnected => Err(String::from_str("Git refresh worker stopped")),
        }
    }
}

} // verus!
