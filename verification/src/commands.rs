//! Command parse, delays, and per-player request queue.
//!
//! - Syntax and delays match the subject table.
//! - Unknown / incorrect lines → caller sends `ko` (not queued).
//! - At most [`MAX_PENDING`] successful requests may await a response; further
//!   valid commands are ignored until a slot frees.

use std::collections::VecDeque;
use std::time::{Duration, Instant};

use vstd::prelude::*;

use crate::text::{chars_of, is_ws, split_words, string_from, words};
use crate::time::{action_duration, action_nanos, duration_of_nanos, instant_after, instant_checked_add, instant_earlier, instant_lt};

verus! {

/// Max in-flight commands per player (executing + waiting).
pub const MAX_PENDING: usize = 10;

/// Immediate rejection reply for unknown / malformed input.
pub const KO: &'static str = "ko\n";

/// Parsed player command (lowercase subject syntax).
#[derive(Debug, Clone, PartialEq, Eq)]
pub enum Command {
    Advance,
    Right,
    Left,
    See,
    Inventory,
    Pick(String),
    Drop(String),
    Kick,
    Broadcast(String),
    Enchantment,
    Fork,
    ConnectNbr,
}

/// A command with its text arguments as character sequences.
pub enum Request {
    Advance,
    Right,
    Left,
    See,
    Inventory,
    Pick(Seq<char>),
    Drop(Seq<char>),
    Kick,
    Broadcast(Seq<char>),
    Enchantment,
    Fork,
    ConnectNbr,
}

impl View for Command {
    type V = Request;

    open spec fn view(&self) -> Request {
        match self {
            Command::Advance => Request::Advance,
            Command::Right => Request::Right,
            Command::Left => Request::Left,
            Command::See => Request::See,
            Command::Inventory => Request::Inventory,
            Command::Pick(s) => Request::Pick(s@),
            Command::Drop(s) => Request::Drop(s@),
            Command::Kick => Request::Kick,
            Command::Broadcast(s) => Request::Broadcast(s@),
            Command::Enchantment => Request::Enchantment,
            Command::Fork => Request::Fork,
            Command::ConnectNbr => Request::ConnectNbr,
        }
    }
}

impl Command {
    /// Delay cost in time units from the subject table.
    pub open spec fn cost(self) -> u32 {
        match self {
            Command::Advance | Command::Right | Command::Left | Command::See | Command::Pick(_)
            | Command::Drop(_) | Command::Kick | Command::Broadcast(_) => 7,
            Command::Inventory => 1,
            Command::Enchantment => 300,
            Command::Fork => 48,
            Command::ConnectNbr => 0,
        }
    }

    /// Delay cost in time units (numerator of `cost/t`).
    pub fn delay_tu(&self) -> (c: u32)
        ensures
            c == self.cost(),
    {
        match self {
            Command::Advance | Command::Right | Command::Left | Command::See | Command::Pick(_)
            | Command::Drop(_) | Command::Kick | Command::Broadcast(_) => 7,
            Command::Inventory => 1,
            Command::Enchantment => 300,
            Command::Fork => 48,
            Command::ConnectNbr => 0,
        }
    }

    pub fn delay(&self, t: u32) -> (d: Duration)
        requires
            t > 0,
        ensures
            d == command_delay(*self, t),
    {
        action_duration(t, self.delay_tu())
    }
}

/// The request a parsed command stands for.
pub open spec fn request_of(c: Option<Command>) -> Option<Request> {
    match c {
        Some(x) => Some(x@),
        None => None,
    }
}

/// Wall-clock delay of `cmd` at divider `t`.
pub open spec fn command_delay(cmd: Command, t: u32) -> Duration {
    duration_of_nanos(action_nanos(t, cmd.cost()) as u64)
}

/// The subject's time table: `advance`, `right`, `left`, `see`, `pick`,
/// `drop`, `kick` and `broadcast` take 7 time units, `inventory` 1, `fork`
/// 48, `enchantment` 300 and `connect_nbr` none; a command of `c` units waits
/// `c/t` seconds, in whole nanoseconds rounded down.
pub proof fn law_command_costs(c: Command, t: u32)
    requires
        t > 0,
    ensures
        c.cost() == (match c {
            Command::Advance => 7u32,
            Command::Right => 7u32,
            Command::Left => 7u32,
            Command::See => 7u32,
            Command::Inventory => 1u32,
            Command::Pick(_) => 7u32,
            Command::Drop(_) => 7u32,
            Command::Kick => 7u32,
            Command::Broadcast(_) => 7u32,
            Command::Enchantment => 300u32,
            Command::Fork => 48u32,
            Command::ConnectNbr => 0u32,
        }),
        command_delay(c, t) == duration_of_nanos(((c.cost() as int) * 1_000_000_000 / (t as int)) as u64),
{
}

/// `s` without its trailing carriage returns.
pub open spec fn trim_cr(s: Seq<char>) -> Seq<char>
    decreases s.len(),
{
    if s.len() > 0 && s.last() == '\r' {
        trim_cr(s.drop_last())
    } else {
        s
    }
}

/// Whether `s` begins with `p`.
pub open spec fn has_prefix(s: Seq<char>, p: Seq<char>) -> bool {
    p.len() <= s.len() && s.take(p.len() as int) == p
}

/// Command named by the words `w` of a line (not a broadcast).
pub open spec fn verb_request(w: Seq<Seq<char>>) -> Option<Request> {
    let v = w[0];
    let single = w.len() == 1;
    if v == "advance"@ && single {
        Some(Request::Advance)
    } else if v == "right"@ && single {
        Some(Request::Right)
    } else if v == "left"@ && single {
        Some(Request::Left)
    } else if v == "see"@ && single {
        Some(Request::See)
    } else if v == "inventory"@ && single {
        Some(Request::Inventory)
    } else if v == "kick"@ && single {
        Some(Request::Kick)
    } else if v == "enchantment"@ && single {
        Some(Request::Enchantment)
    } else if v == "fork"@ && single {
        Some(Request::Fork)
    } else if v == "connect_nbr"@ && single {
        Some(Request::ConnectNbr)
    } else if v == "pick"@ {
        if w.len() == 2 {
            Some(Request::Pick(w[1]))
        } else {
            None
        }
    } else if v == "drop"@ {
        if w.len() == 2 {
            Some(Request::Drop(w[1]))
        } else {
            None
        }
    } else {
        None
    }
}

/// The command a protocol line (without trailing `\n`) asks for, if any.
pub open spec fn parsed_request(line: Seq<char>) -> Option<Request> {
    let l = trim_cr(line);
    if l.len() == 0 {
        None
    } else if has_prefix(l, "broadcast"@) {
        let rest = l.skip("broadcast"@.len() as int);
        if rest.len() == 0 {
            Some(Request::Broadcast(Seq::empty()))
        } else if rest[0] == ' ' {
            Some(Request::Broadcast(rest.skip(1)))
        } else {
            None
        }
    } else {
        let w = words(l);
        if w.len() == 0 {
            None
        } else {
            verb_request(w)
        }
    }
}

/// Whether `chars` begins with the characters of `p`.
fn starts_with(chars: &Vec<char>, p: &str) -> (b: bool)
    ensures
        b == has_prefix(chars@, p@),
{
    let pc = chars_of(p);
    if pc.len() > chars.len() {
        return false;
    }
    let mut i: usize = 0;
    while i < pc.len()
        invariant
            i <= pc@.len(),
            pc@ == p@,
            pc@.len() <= chars@.len(),
            chars@.take(i as int) == pc@.take(i as int),
        decreases pc@.len() - i,
    {
        if chars[i] != pc[i] {
            assert(chars@.take(pc@.len() as int)[i as int] != pc@[i as int]);
            return false;
        }
        i = i + 1;
        assert(chars@.take(i as int) =~= pc@.take(i as int));
    }
    assert(pc@.take(pc@.len() as int) =~= pc@);
    true
}

/// Whether `w` holds exactly the characters of `p`.
fn chars_eq(w: &Vec<char>, p: &str) -> (b: bool)
    ensures
        b == (w@ == p@),
{
    let b = starts_with(w, p);
    if b && w.len() == p.unicode_len() {
        assert(w@.take(p@.len() as int) =~= w@);
        true
    } else {
        proof {
            if w@ == p@ {
                assert(w@.take(p@.len() as int) =~= w@);
            }
        }
        false
    }
}

/// Parse one protocol line (without trailing `\n`). `None` → respond with [`KO`].
pub fn parse_command(line: &str) -> (c: Option<Command>)
    ensures
        request_of(c) == parsed_request(line@),
{
    let all = chars_of(line);
    let mut end: usize = all.len();
    proof {
        assert(all@.take(all@.len() as int) =~= all@);
    }
    while end > 0 && all[end - 1] == '\r'
        invariant
            end <= all@.len(),
            trim_cr(all@) == trim_cr(all@.take(end as int)),
        decreases end,
    {
        proof {
            assert(all@.take(end as int).drop_last() =~= all@.take(end - 1));
        }
        end = end - 1;
    }
    proof {
        assert(all@.take(all@.len() as int) =~= all@);
    }
    let line_chars = vec_prefix(&all, end);
    proof {
        assert(trim_cr(line_chars@) == line_chars@);
        assert(line_chars@ == trim_cr(line@));
    }
    if line_chars.len() == 0 {
        return None;
    }
    if starts_with(&line_chars, "broadcast") {
        let k = "broadcast".unicode_len();
        let n = line_chars.len();
        if k == n {
            let text = string_from(&line_chars, n, n);
            proof {
                assert(line_chars@.skip(k as int).len() == 0);
                assert(text@ =~= Seq::<char>::empty());
            }
            return Some(Command::Broadcast(text));
        }
        if line_chars[k] == ' ' {
            let text = string_from(&line_chars, k + 1, n);
            proof {
                assert(text@ =~= line_chars@.skip(k as int).skip(1));
            }
            return Some(Command::Broadcast(text));
        }
        return None;
    }
    let w = split_words(&line_chars);
    if w.len() == 0 {
        return None;
    }
    proof {
        assert(w@.map_values(|v: Vec<char>| v@)[0] == w@[0]@);
        if w@.len() >= 2 {
            assert(w@.map_values(|v: Vec<char>| v@)[1] == w@[1]@);
        }
    }
    let single = w.len() == 1;
    let v = &w[0];
    if chars_eq(v, "advance") && single {
        Some(Command::Advance)
    } else if chars_eq(v, "right") && single {
        Some(Command::Right)
    } else if chars_eq(v, "left") && single {
        Some(Command::Left)
    } else if chars_eq(v, "see") && single {
        Some(Command::See)
    } else if chars_eq(v, "inventory") && single {
        Some(Command::Inventory)
    } else if chars_eq(v, "kick") && single {
        Some(Command::Kick)
    } else if chars_eq(v, "enchantment") && single {
        Some(Command::Enchantment)
    } else if chars_eq(v, "fork") && single {
        Some(Command::Fork)
    } else if chars_eq(v, "connect_nbr") && single {
        Some(Command::ConnectNbr)
    } else if chars_eq(v, "pick") {
        if w.len() == 2 {
            let obj = string_from(&w[1], 0, w[1].len());
            proof {
                assert(obj@ =~= w@[1]@);
            }
            Some(Command::Pick(obj))
        } else {
            None
        }
    } else if chars_eq(v, "drop") {
        if w.len() == 2 {
            let obj = string_from(&w[1], 0, w[1].len());
            proof {
                assert(obj@ =~= w@[1]@);
            }
            Some(Command::Drop(obj))
        } else {
            None
        }
    } else {
        None
    }
}

/// The first `n` characters of `v`.
fn vec_prefix(v: &Vec<char>, n: usize) -> (r: Vec<char>)
    requires
        n <= v@.len(),
    ensures
        r@ == v@.take(n as int),
{
    let mut r: Vec<char> = Vec::new();
    let mut i: usize = 0;
    while i < n
        invariant
            i <= n,
            n <= v@.len(),
            r@ == v@.take(i as int),
        decreases n - i,
    {
        r.push(v[i]);
        i = i + 1;
        assert(r@ =~= v@.take(i as int));
    }
    r
}

/// Per-player FIFO of successful requests awaiting a response.
#[derive(Debug, Default)]
pub struct CmdQueue {
    /// Active command currently waiting out its delay (`None` if idle).
    active: Option<Command>,
    /// When `active` completes.
    busy_until: Option<Instant>,
    /// Commands waiting to become active (not yet started).
    waiting: VecDeque<Command>,
}

impl CmdQueue {
    /// The command waiting out its delay, if any.
    pub closed spec fn running(self) -> Option<Command> {
        self.active
    }

    /// When the running command completes.
    pub closed spec fn deadline(self) -> Option<Instant> {
        self.busy_until
    }

    /// Commands not yet started, oldest first.
    pub closed spec fn queued(self) -> Seq<Command> {
        self.waiting@
    }

    /// Every successful request without a response yet, oldest first.
    pub open spec fn pending(self) -> Seq<Command> {
        match self.running() {
            Some(c) => seq![c] + self.queued(),
            None => self.queued(),
        }
    }

    /// A deadline is set exactly while a command runs, and nothing waits while idle.
    pub open spec fn wf(self) -> bool {
        &&& self.running().is_some() == self.deadline().is_some()
        &&& self.running().is_none() ==> self.queued().len() == 0
        &&& self.pending().len() <= MAX_PENDING
    }

    pub fn new() -> (q: CmdQueue)
        ensures
            q.wf(),
            q.running().is_none(),
            q.queued().len() == 0,
    {
        CmdQueue { active: None, busy_until: None, waiting: VecDeque::new() }
    }

    /// Total successful requests without a response yet.
    pub fn pending_count(&self) -> (n: usize)
        requires
            self.wf(),
        ensures
            n == self.pending().len(),
    {
        let a: usize = if self.active.is_some() {
            1
        } else {
            0
        };
        self.waiting.len() + a
    }

    pub fn is_busy(&self) -> (b: bool)
        ensures
            b == self.running().is_some(),
    {
        self.active.is_some()
    }

    pub fn busy_until(&self) -> (d: Option<Instant>)
        ensures
            d == self.deadline(),
    {
        self.busy_until
    }

    /// Enqueue a valid command. Returns `false` if the buffer is full (ignored).
    pub fn try_enqueue(&mut self, cmd: Command, now: Instant, t: u32) -> (accepted: bool)
        requires
            old(self).wf(),
            t > 0,
            old(self).running().is_none() ==> instant_after(now, command_delay(cmd, t)).is_some(),
        ensures
            final(self).wf(),
            enqueued(*old(self), cmd, now, t, accepted, *final(self)),
    {
        if self.pending_count() >= MAX_PENDING {
            return false;
        }
        if self.active.is_none() {
            self.start(cmd, now, t);
            assert(self.pending() =~= old(self).pending().push(cmd));
        } else {
            self.waiting.push_back(cmd);
            assert(self.pending() =~= old(self).pending().push(cmd));
        }
        true
    }

    /// [`CmdQueue::try_enqueue`] at any `now`: `None`, with the queue
    /// unchanged, when the queue is idle and the deadline `now` plus the
    /// command's delay cannot be represented; otherwise what `try_enqueue`
    /// gives.
    pub fn try_enqueue_checked(&mut self, cmd: Command, now: Instant, t: u32) -> (r: Option<bool>)
        requires
            old(self).wf(),
            t > 0,
        ensures
            final(self).wf(),
            (old(self).running().is_none() && instant_after(now, command_delay(cmd, t)).is_none()) ==> r.is_none()
                && *final(self) == *old(self),
            !(old(self).running().is_none() && instant_after(now, command_delay(cmd, t)).is_none()) ==> (r matches Some(accepted)
                && enqueued(*old(self), cmd, now, t, accepted, *final(self))),
    {
        if self.active.is_none() && instant_checked_add(now, cmd.delay(t)).is_none() {
            return None;
        }
        Some(self.try_enqueue(cmd, now, t))
    }

    fn start(&mut self, cmd: Command, now: Instant, t: u32)
        requires
            t > 0,
            instant_after(now, command_delay(cmd, t)).is_some(),
        ensures
            final(self).running() == Some(cmd),
            final(self).deadline() == instant_after(now, command_delay(cmd, t)),
            final(self).queued() == old(self).queued(),
    {
        let delay = cmd.delay(t);
        self.busy_until = instant_checked_add(now, delay);
        self.active = Some(cmd);
    }

    /// If the active command's delay has elapsed, pop it and start the next.
    pub fn poll_complete(&mut self, now: Instant, t: u32) -> (done: Option<Command>)
        requires
            old(self).wf(),
            t > 0,
            old(self).queued().len() > 0 ==> instant_after(now, command_delay(old(self).queued()[0], t)).is_some(),
        ensures
            final(self).wf(),
            polled(*old(self), now, t, done, *final(self)),
            final(self).pending().len() <= old(self).pending().len(),
    {
        let until = match self.busy_until {
            Some(u) => u,
            None => return None,
        };
        if instant_lt(now, until) {
            return None;
        }
        let finished = self.active.take();
        self.busy_until = None;
        let next = self.waiting.pop_front();
        match next {
            Some(c) => {
                self.start(c, now, t);
            },
            None => {},
        }
        proof {
            assert(self.pending() =~= old(self).pending().drop_first());
        }
        finished
    }

    /// [`CmdQueue::poll_complete`] at any `now`: `None`, with the queue
    /// unchanged, when a command waits and the deadline `now` plus its delay
    /// cannot be represented; otherwise what `poll_complete` gives.
    pub fn poll_complete_checked(&mut self, now: Instant, t: u32) -> (r: Option<Option<Command>>)
        requires
            old(self).wf(),
            t > 0,
        ensures
            final(self).wf(),
            (old(self).queued().len() > 0 && instant_after(now, command_delay(old(self).queued()[0], t)).is_none())
                ==> r.is_none() && *final(self) == *old(self),
            !(old(self).queued().len() > 0 && instant_after(now, command_delay(old(self).queued()[0], t)).is_none())
                ==> (r matches Some(done) && polled(*old(self), now, t, done, *final(self))),
    {
        if self.waiting.len() > 0 {
            if instant_checked_add(now, self.waiting[0].delay(t)).is_none() {
                return None;
            }
        }
        Some(self.poll_complete(now, t))
    }
}

/// What enqueuing `cmd` at `now` does to queue `q`, giving `accepted` and `q2`:
/// accepted exactly while fewer than [`MAX_PENDING`] requests are pending, the
/// command joins the end, and an idle queue starts it at once.
pub open spec fn enqueued(q: CmdQueue, cmd: Command, now: Instant, t: u32, accepted: bool, q2: CmdQueue) -> bool {
    &&& accepted == (q.pending().len() < MAX_PENDING)
    &&& q2.pending() == (if accepted {
        q.pending().push(cmd)
    } else {
        q.pending()
    })
    &&& q2.deadline() == (if accepted && q.running().is_none() {
        instant_after(now, command_delay(cmd, t))
    } else {
        q.deadline()
    })
}

/// What polling queue `q` at `now` does, giving `done` and `q2`: nothing before
/// the deadline; at or after it the running command completes and the next
/// one starts.
pub open spec fn polled(q: CmdQueue, now: Instant, t: u32, done: Option<Command>, q2: CmdQueue) -> bool {
    match q.deadline() {
        None => done.is_none() && q2 == q,
        Some(until) => if instant_earlier(now, until) {
            done.is_none() && q2 == q
        } else {
            &&& done == q.running()
            &&& q2.pending() == q.pending().drop_first()
            &&& q2.deadline() == (if q.queued().len() > 0 {
                instant_after(now, command_delay(q.queued()[0], t))
            } else {
                None
            })
        },
    }
}

} // verus!
