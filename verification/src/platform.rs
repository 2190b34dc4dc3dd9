//! What the app asks of the page that hosts it, and the work that waits for
//! the next frame there. A window asks nothing, and nothing waits in it.
use vstd::prelude::*;

verus! {

/// What the tab asks of the page.
#[derive(Debug, PartialEq, Eq)]
pub enum Command {
    /// Show the file chooser; the picked file comes back as a dropped file.
    OpenPicker,
    /// Save `data` as the file `name`.
    Download { name: String, mime: &'static str, data: Vec<u8> },
    /// Keep the preferences for the next visit.
    StorePrefs(String),
    /// Read the canvas once this frame is painted and send it back.
    Screenshot,
}

/// What a server has to do.
#[derive(Clone, Copy, Debug, PartialEq, Eq, Structural)]
pub enum Served {
    Idle,
    /// A request waits for the next frame.
    Waiting,
    /// Nobody sends or listens any more.
    Gone,
}

/// A standing server: the requests sent to it since it last looked, by
/// number, and the one it keeps.
#[derive(Debug)]
pub struct Server {
    pub sent: Vec<u64>,
    /// Nobody can send any more.
    pub closed: bool,
    /// Somebody takes the answers.
    pub heard: bool,
    pub latest: Option<u64>,
}

#[verifier::ext_equal]
pub struct ServerView {
    pub sent: Seq<u64>,
    pub closed: bool,
    pub heard: bool,
    pub latest: Option<u64>,
}

impl View for Server {
    type V = ServerView;

    open spec fn view(&self) -> ServerView {
        ServerView {
            sent: self.sent@,
            closed: self.closed,
            heard: self.heard,
            latest: self.latest,
        }
    }
}

impl ServerView {
    /// The request kept once it has looked: the one sent last.
    pub open spec fn newest(self) -> Option<u64> {
        if self.sent.len() > 0 {
            Some(self.sent.last())
        } else {
            self.latest
        }
    }

    /// After a look, `now` saying whether to answer: the server, what it has
    /// to do, and the request answered.
    pub open spec fn serve(self, now: bool) -> (ServerView, Served, Option<u64>) {
        let looked = ServerView { sent: Seq::empty(), latest: self.newest(), ..self };
        if self.closed {
            (looked, Served::Gone, None)
        } else if now && looked.latest is Some {
            (
                ServerView { latest: None, ..looked },
                if self.heard {
                    Served::Idle
                } else {
                    Served::Gone
                },
                looked.latest,
            )
        } else {
            (
                looked,
                if looked.latest is Some {
                    Served::Waiting
                } else {
                    Served::Idle
                },
                None,
            )
        }
    }
}

impl Server {
    /// Looks at what was sent, keeps the latest request, and answers it when
    /// `now`; the request to answer.
    pub fn serve(&mut self, now: bool) -> (done: (Served, Option<u64>))
        ensures
            (final(self)@, done.0, done.1) == old(self)@.serve(now),
    {
        let n: usize = self.sent.len();
        if n > 0 {
            self.latest = Some(self.sent[n - 1]);
        }
        self.sent = Vec::new();
        assert(self@ =~= (ServerView {
            sent: Seq::empty(),
            latest: old(self)@.newest(),
            ..old(self)@
        }));
        if self.closed {
            return (Served::Gone, None);
        }
        if now {
            if let Some(request) = self.latest {
                self.latest = None;
                return (
                    if self.heard {
                        Served::Idle
                    } else {
                        Served::Gone
                    },
                    Some(request),
                );
            }
        }
        (
            if self.latest.is_some() {
                Served::Waiting
            } else {
                Served::Idle
            },
            None,
        )
    }
}

/// The work that waits for the next frame, and what is asked of the page.
#[derive(Debug)]
pub struct Host {
    pub in_browser: bool,
    pub jobs: Vec<u64>,
    pub servers: Vec<Server>,
    pub commands: Vec<Command>,
}

pub open spec fn server_views(list: Seq<Server>) -> Seq<ServerView> {
    Seq::new(list.len(), |i: int| list[i]@)
}

/// The servers of the first `n` that are still in use, after a look.
pub open spec fn served(list: Seq<ServerView>, now: bool, n: nat) -> Seq<ServerView>
    decreases n,
{
    if n == 0 {
        Seq::empty()
    } else {
        let before = served(list, now, (n - 1) as nat);
        let (after, what, answer) = list[n - 1].serve(now);
        if what == Served::Gone {
            before
        } else {
            before.push(after)
        }
    }
}

/// The requests that the first `n` servers answer, in the servers' order.
pub open spec fn answers(list: Seq<ServerView>, now: bool, n: nat) -> Seq<u64>
    decreases n,
{
    if n == 0 {
        Seq::empty()
    } else {
        let before = answers(list, now, (n - 1) as nat);
        match list[n - 1].serve(now).2 {
            Some(request) => before.push(request),
            None => before,
        }
    }
}

pub open spec fn any_waits(list: Seq<ServerView>, now: bool, n: nat) -> bool {
    exists|i: int| 0 <= i < n && (#[trigger] list[i].serve(now)).1 == Served::Waiting
}

/// Calls every server, keeping those still in use; whether one waits, and the
/// requests answered.
fn each_service(servers: &mut Vec<Server>, now: bool) -> (found: (bool, Vec<u64>))
    ensures
        server_views(final(servers)@) == served(
            server_views(old(servers)@),
            now,
            old(servers)@.len(),
        ),
        found.0 == any_waits(server_views(old(servers)@), now, old(servers)@.len()),
        found.1@ == answers(server_views(old(servers)@), now, old(servers)@.len()),
{
    let ghost all = server_views(servers@);
    let ghost count = servers@.len();
    let mut list: Vec<Server> = Vec::new();
    std::mem::swap(&mut list, servers);
    let mut kept: Vec<Server> = Vec::new();
    let mut done: Vec<u64> = Vec::new();
    let mut waiting: bool = false;
    let ghost mut n: nat = 0;
    assert(server_views(kept@) =~= served(all, now, 0));
    assert(done@ =~= answers(all, now, 0));
    while list.len() > 0
        invariant
            n <= count,
            all.len() == count,
            server_views(list@) == all.subrange(n as int, count as int),
            server_views(kept@) == served(all, now, n),
            done@ == answers(all, now, n),
            waiting == any_waits(all, now, n),
        decreases list@.len(),
    {
        let ghost rest = server_views(list@);
        assert(rest.len() == list@.len());
        let ghost before = all[n as int];
        let ghost was = list@;
        assert(rest[0] == before);
        let mut server = list.remove(0);
        assert(server@ == before);
        proof {
            let more = server_views(list@);
            let left = all.subrange(n as int + 1, count as int);
            assert(more.len() == left.len());
            assert forall|i: int| 0 <= i < more.len() implies more[i] == left[i] by {
                assert(more[i] == was[i + 1]@);
                assert(rest[i + 1] == was[i + 1]@);
                assert(rest[i + 1] == all.subrange(n as int, count as int)[i + 1]);
            }
            assert(more =~= left);
        }
        let ghost was_waiting = any_waits(all, now, n);
        let (what, answer) = server.serve(now);
        let ghost so_far = server_views(kept@);
        if what == Served::Waiting {
            waiting = true;
        }
        if what != Served::Gone {
            kept.push(server);
            assert(server_views(kept@) =~= so_far.push(server@));
        }
        if let Some(request) = answer {
            done.push(request);
        }
        proof {
            assert(any_waits(all, now, (n + 1) as nat) == (was_waiting || what == Served::Waiting)) by {
                if any_waits(all, now, (n + 1) as nat) && !was_waiting {
                    let i = choose|i: int|
                        0 <= i < n + 1 && (#[trigger] all[i].serve(now)).1 == Served::Waiting;
                    assert(i == n);
                }
                if was_waiting {
                    let i = choose|i: int|
                        0 <= i < n && (#[trigger] all[i].serve(now)).1 == Served::Waiting;
                    assert(all[i].serve(now).1 == Served::Waiting);
                }
                assert(all[n as int].serve(now).1 == what);
            }
            n = n + 1;
        }
    }
    assert(n == count) by {
        assert(server_views(list@).len() == 0);
    }
    *servers = kept;
    (waiting, done)
}

impl Host {
    /// The page was asked for one thing more, `command`; a window asks
    /// nothing. Nothing else changed.
    pub open spec fn asked(self, command: Command, after: Host) -> bool {
        &&& after.commands@ == (if self.in_browser {
            self.commands@.push(command)
        } else {
            self.commands@
        })
        &&& after.in_browser == self.in_browser
        &&& after.jobs == self.jobs
        &&& after.servers == self.servers
    }

    pub fn new(in_browser: bool) -> (host: Host)
        ensures
            host.in_browser == in_browser,
            host.jobs@.len() == 0,
            host.servers@.len() == 0,
            host.commands@.len() == 0,
    {
        Host { in_browser, jobs: Vec::new(), servers: Vec::new(), commands: Vec::new() }
    }

    /// Asks the page for something; in a window, nothing is asked.
    pub fn ask(&mut self, command: Command)
        ensures
            old(self).asked(command, *final(self)),
    {
        if self.in_browser {
            self.commands.push(command);
        }
    }

    /// What was asked of the page since the last call.
    pub fn take_commands(&mut self) -> (list: Vec<Command>)
        ensures
            list@ == old(self).commands@,
            final(self).commands@.len() == 0,
            final(self).in_browser == old(self).in_browser,
            final(self).jobs == old(self).jobs,
            final(self).servers == old(self).servers,
    {
        let mut list: Vec<Command> = Vec::new();
        std::mem::swap(&mut list, &mut self.commands);
        list
    }

    /// Takes the work that waited: the jobs, then the latest request of each
    /// server. A window has none waiting.
    pub fn run_pending(&mut self) -> (work: (Vec<u64>, Vec<u64>))
        ensures
            final(self).in_browser == old(self).in_browser,
            final(self).commands == old(self).commands,
            !old(self).in_browser ==> *final(self) == *old(self) && work.0@.len() == 0
                && work.1@.len() == 0,
            old(self).in_browser ==> {
                let all = server_views(old(self).servers@);
                &&& work.0@ == old(self).jobs@
                &&& final(self).jobs@.len() == 0
                &&& work.1@ == answers(all, true, all.len())
                &&& server_views(final(self).servers@) == served(all, true, all.len())
            },
    {
        if !self.in_browser {
            return (Vec::new(), Vec::new());
        }
        let mut jobs: Vec<u64> = Vec::new();
        std::mem::swap(&mut jobs, &mut self.jobs);
        let (waiting, done) = each_service(&mut self.servers, true);
        (jobs, done)
    }

    /// Whether work waits for the next frame, so that the page runs one soon.
    pub fn has_pending(&mut self) -> (yes: bool)
        ensures
            final(self).in_browser == old(self).in_browser,
            final(self).commands == old(self).commands,
            final(self).jobs == old(self).jobs,
            !old(self).in_browser ==> *final(self) == *old(self) && !yes,
            old(self).in_browser ==> {
                let all = server_views(old(self).servers@);
                &&& yes == (any_waits(all, false, all.len()) || old(self).jobs@.len() > 0)
                &&& server_views(final(self).servers@) == served(all, false, all.len())
            },
    {
        if !self.in_browser {
            return false;
        }
        let (waiting, done) = each_service(&mut self.servers, false);
        waiting || self.jobs.len() > 0
    }
}

/// The latest request wins: however many were sent, a server that is asked to
/// answer answers the one sent last, once.
pub proof fn law_latest_request_wins(s: ServerView, request: u64)
    requires
        !s.closed,
        s.heard,
    ensures
        ({
            let sent = ServerView { sent: s.sent.push(request), ..s };
            let (after, what, answer) = sent.serve(true);
            &&& answer == Some(request)
            &&& after.serve(true).2 is None
            &&& what == Served::Idle
        }),
{
}

/// Looking without answering loses nothing: the answer that follows is the
/// same.
pub proof fn law_looking_keeps_the_request(s: ServerView)
    requires
        !s.closed,
    ensures
        s.serve(false).0.serve(true).2 == s.serve(true).2,
        s.serve(false).1 == Served::Waiting <==> s.serve(true).2 is Some,
{
}

} // verus!
