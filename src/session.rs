use vstd::prelude::*;
use vstd::string::{StrSliceExecFns, StringExecFns};

use crate::text::{contains_str, occurs_at, occurs_at_exec, occurs_in};
use crate::event::{decode_event, record_event, EVENT_RECORD_LEN};
use crate::types::{CaptureError, CaptureStats, PacketEvent};

verus! {

/// The error a controller message stands for: a missing interface, an
/// interface that was not attached, or anything else.
pub open spec fn error_kind_of(msg: Seq<char>, e: CaptureError) -> bool {
    if occurs_in(msg, "not found"@) {
        e matches CaptureError::InterfaceNotFound(m) && m@ == msg
    } else if occurs_in(msg, "not attached"@) {
        e matches CaptureError::InvalidState(m) && m@ == msg
    } else {
        e matches CaptureError::Other(m) && m@ == msg
    }
}

/// Maps a controller's error message to an error of the control interface.
pub fn classify_ebpf_error(msg: &str) -> (r: CaptureError)
    ensures
        error_kind_of(msg@, r),
{
    if contains_str(msg, "not found") {
        CaptureError::InterfaceNotFound(String::from_str(msg))
    } else if contains_str(msg, "not attached") {
        CaptureError::InvalidState(String::from_str(msg))
    } else {
        CaptureError::Other(String::from_str(msg))
    }
}

/// Capability bit of `CAP_NET_ADMIN`.
pub const CAP_NET_ADMIN: u64 = 0x1000;

/// Capability bit of `CAP_BPF`.
pub const CAP_BPF: u64 = 0x80_0000_0000;

/// Names of the capabilities that the effective set `cap_eff` lacks for
/// loading and attaching the probes, `CAP_BPF` first.
pub open spec fn missing_caps(cap_eff: u64) -> Seq<Seq<char>> {
    let bpf = if cap_eff & CAP_BPF == 0 {
        seq!["CAP_BPF"@]
    } else {
        Seq::empty()
    };
    if cap_eff & CAP_NET_ADMIN == 0 {
        bpf.push("CAP_NET_ADMIN"@)
    } else {
        bpf
    }
}

pub fn missing_capabilities(cap_eff: u64) -> (r: Vec<String>)
    ensures
        r@.map_values(|s: String| s@) == missing_caps(cap_eff),
{
    let mut r: Vec<String> = Vec::new();
    if cap_eff & CAP_BPF == 0 {
        r.push(String::from_str("CAP_BPF"));
    }
    if cap_eff & CAP_NET_ADMIN == 0 {
        r.push(String::from_str("CAP_NET_ADMIN"));
    }
    assert(r@.map_values(|s: String| s@) =~= missing_caps(cap_eff));
    r
}

/// Value of the hexadecimal digit `c`, either case.
pub open spec fn hex_digit_value(c: char) -> Option<u64> {
    if '0' <= c <= '9' {
        Some((c as u64 - '0' as u64) as u64)
    } else if 'a' <= c <= 'f' {
        Some((c as u64 - 'a' as u64 + 10) as u64)
    } else if 'A' <= c <= 'F' {
        Some((c as u64 - 'A' as u64 + 10) as u64)
    } else {
        None
    }
}

/// The number that the hexadecimal digits `s` spell, when there is at least
/// one digit, nothing else, and the number fits in 64 bits.
pub open spec fn hex_value(s: Seq<char>) -> Option<u64>
    decreases s.len(),
{
    if s.len() == 0 {
        None
    } else if s.len() == 1 {
        hex_digit_value(s[0])
    } else {
        match (hex_value(s.drop_last()), hex_digit_value(s.last())) {
            (Some(v), Some(d)) => if v < 0x1000_0000_0000_0000 {
                Some((v * 16 + d) as u64)
            } else {
                None
            },
            _ => None,
        }
    }
}

proof fn lemma_hex_prefix_none(s: Seq<char>, i: int)
    requires
        1 <= i <= s.len(),
        hex_value(s.take(i)) is None,
    ensures
        hex_value(s) is None,
    decreases s.len() - i,
{
    if i < s.len() {
        assert(s.take(i + 1).drop_last() =~= s.take(i));
        lemma_hex_prefix_none(s, i + 1);
    } else {
        assert(s.take(i) =~= s);
    }
}

fn hex_digit(c: char) -> (r: Option<u64>)
    ensures
        r == hex_digit_value(c),
{
    if '0' <= c && c <= '9' {
        Some(c as u64 - '0' as u64)
    } else if 'a' <= c && c <= 'f' {
        Some(c as u64 - 'a' as u64 + 10)
    } else if 'A' <= c && c <= 'F' {
        Some(c as u64 - 'A' as u64 + 10)
    } else {
        None
    }
}

/// Reads a hexadecimal number, such as the effective capability mask of a
/// process status.
pub fn parse_hex_u64(s: &str) -> (r: Option<u64>)
    ensures
        r == hex_value(s@),
{
    let n = s.unicode_len();
    if n == 0 {
        return None;
    }
    let mut acc: u64 = match hex_digit(s.get_char(0)) {
        Some(d) => d,
        None => {
            proof {
                assert(s@.take(1).drop_last().len() == 0);
                lemma_hex_prefix_none(s@, 1);
            }
            return None;
        },
    };
    let mut i: usize = 1;
    while i < n
        invariant
            n == s@.len(),
            1 <= i <= n,
            hex_value(s@.take(i as int)) == Some(acc),
        decreases n - i,
    {
        let ghost pre = s@.take(i as int);
        assert(s@.take(i + 1).drop_last() =~= pre);
        assert(s@.take(i + 1).last() == s@[i as int]);
        let d = match hex_digit(s.get_char(i)) {
            Some(d) => d,
            None => {
                proof {
                    lemma_hex_prefix_none(s@, i + 1);
                }
                return None;
            },
        };
        if acc >= 0x1000_0000_0000_0000 {
            proof {
                lemma_hex_prefix_none(s@, i + 1);
            }
            return None;
        }
        acc = acc * 16 + d;
        i = i + 1;
    }
    assert(s@.take(n as int) =~= s@);
    Some(acc)
}

pub open spec fn is_blank(c: char) -> bool {
    c == ' ' || c == '\t'
}

/// `s` without its leading blanks.
pub open spec fn skip_blanks(s: Seq<char>) -> Seq<char>
    decreases s.len(),
{
    if s.len() > 0 && is_blank(s[0]) {
        skip_blanks(s.drop_first())
    } else {
        s
    }
}

/// `s` without its trailing blanks.
pub open spec fn trim_end_blanks(s: Seq<char>) -> Seq<char>
    decreases s.len(),
{
    if s.len() > 0 && is_blank(s.last()) {
        trim_end_blanks(s.drop_last())
    } else {
        s
    }
}

/// The effective capability mask a `CapEff:` line of a process status
/// gives: the hexadecimal number after the label, blanks around it ignored.
pub open spec fn cap_eff_value(line: Seq<char>) -> Option<u64> {
    if line.len() >= 7 && occurs_at(line, "CapEff:"@, 0) {
        hex_value(trim_end_blanks(skip_blanks(line.subrange(7, line.len() as int))))
    } else {
        None
    }
}

/// Reads the effective capability mask from a `CapEff:` line.
pub fn cap_eff_field(line: &str) -> (r: Option<u64>)
    ensures
        r == cap_eff_value(line@),
{
    let n = line.unicode_len();
    proof {
        reveal_strlit("CapEff:");
    }
    if n < 7 || !occurs_at_exec(line, "CapEff:", 0, n, 7) {
        return None;
    }
    let ghost l = line@;
    let mut a: usize = 7;
    while a < n && (line.get_char(a) == ' ' || line.get_char(a) == '\t')
        invariant
            l == line@,
            n == l.len(),
            7 <= a <= n,
            skip_blanks(l.subrange(7, n as int)) == skip_blanks(l.subrange(a as int, n as int)),
        decreases n - a,
    {
        assert(l.subrange(a as int, n as int).drop_first() =~= l.subrange(a + 1, n as int));
        a = a + 1;
    }
    assert(skip_blanks(l.subrange(a as int, n as int)) == l.subrange(a as int, n as int));
    let mut z: usize = n;
    while z > a && (line.get_char(z - 1) == ' ' || line.get_char(z - 1) == '\t')
        invariant
            l == line@,
            n == l.len(),
            a <= z <= n,
            trim_end_blanks(l.subrange(a as int, n as int)) == trim_end_blanks(
                l.subrange(a as int, z as int),
            ),
        decreases z - a,
    {
        assert(l.subrange(a as int, z as int).drop_last() =~= l.subrange(a as int, z - 1));
        z = z - 1;
    }
    assert(trim_end_blanks(l.subrange(a as int, z as int)) == l.subrange(a as int, z as int));
    parse_hex_u64(line.substring_char(a, z))
}

/// A request to the controller.
#[derive(Debug, Clone, PartialEq, Eq)]
pub enum Command {
    Attach(String),
    Detach(String),
}

/// The command a line spells: `attach <name>` or `detach <name>`, with a
/// non-empty name.
pub open spec fn command_of(line: Seq<char>) -> Option<(bool, Seq<char>)> {
    if line.len() > 7 && occurs_at(line, "attach "@, 0) {
        Some((true, line.subrange(7, line.len() as int)))
    } else if line.len() > 7 && occurs_at(line, "detach "@, 0) {
        Some((false, line.subrange(7, line.len() as int)))
    } else {
        None
    }
}

pub fn parse_command(line: &str) -> (r: Option<Command>)
    ensures
        match command_of(line@) {
            Some((true, name)) => r matches Some(Command::Attach(n)) && n@ == name,
            Some((false, name)) => r matches Some(Command::Detach(n)) && n@ == name,
            None => r is None,
        },
{
    let n = line.unicode_len();
    proof {
        reveal_strlit("attach ");
        reveal_strlit("detach ");
    }
    if n > 7 && occurs_at_exec(line, "attach ", 0, n, 7) {
        return Some(Command::Attach(String::from_str(line.substring_char(7, n))));
    }
    if n > 7 && occurs_at_exec(line, "detach ", 0, n, 7) {
        return Some(Command::Detach(String::from_str(line.substring_char(7, n))));
    }
    None
}

/// An interface the ingress program is attached to.
#[derive(Debug)]
pub struct AttachedInterface {
    pub name: String,
    pub link_id: u64,
    pub ifindex: u32,
}

pub open spec fn unique_names(es: Seq<AttachedInterface>) -> bool {
    forall|i: int, j: int|
        0 <= i < es.len() && 0 <= j < es.len() && #[trigger] es[i].name@ == #[trigger] es[j].name@
            ==> i == j
}

pub open spec fn has_name(es: Seq<AttachedInterface>, name: Seq<char>) -> bool {
    exists|i: int| 0 <= i < es.len() && #[trigger] es[i].name@ == name
}

/// Link and interface index of the interface called `name`, if attached.
pub open spec fn link_of(es: Seq<AttachedInterface>, name: Seq<char>) -> Option<(u64, u32)> {
    if has_name(es, name) {
        let e = es[choose|i: int| 0 <= i < es.len() && #[trigger] es[i].name@ == name];
        Some((e.link_id, e.ifindex))
    } else {
        None
    }
}

proof fn lemma_link_of_at(es: Seq<AttachedInterface>, i: int)
    requires
        unique_names(es),
        0 <= i < es.len(),
    ensures
        link_of(es, es[i].name@) == Some((es[i].link_id, es[i].ifindex)),
{
    let n = es[i].name@;
    assert(has_name(es, n));
    let j = choose|j: int| 0 <= j < es.len() && #[trigger] es[j].name@ == n;
    assert(es[j].name@ == es[i].name@);
}

/// The interfaces the controller has attached, by name.
#[derive(Debug)]
pub struct AttachTable {
    pub entries: Vec<AttachedInterface>,
}

impl AttachTable {
    pub open spec fn wf(&self) -> bool {
        unique_names(self.entries@)
    }

    pub open spec fn lookup(&self, name: Seq<char>) -> Option<(u64, u32)> {
        link_of(self.entries@, name)
    }

    pub fn new() -> (r: AttachTable)
        ensures
            r.wf(),
            forall|n: Seq<char>| #[trigger] r.lookup(n) is None,
    {
        AttachTable { entries: Vec::new() }
    }

    fn find(&self, name: &str) -> (r: Option<usize>)
        requires
            self.wf(),
        ensures
            r matches Some(i) ==> i < self.entries@.len() && self.entries@[i as int].name@ == name@,
            r is None ==> !has_name(self.entries@, name@),
    {
        let wanted = String::from_str(name);
        let mut i: usize = 0;
        while i < self.entries.len()
            invariant
                wanted@ == name@,
                i <= self.entries@.len(),
                forall|j: int| 0 <= j < i ==> #[trigger] self.entries@[j].name@ != name@,
            decreases self.entries@.len() - i,
        {
            if self.entries[i].name == wanted {
                return Some(i);
            }
            i = i + 1;
        }
        None
    }

    /// Whether `name` is attached; a repeated attach is then a no-op.
    pub fn contains(&self, name: &str) -> (r: bool)
        requires
            self.wf(),
        ensures
            r == self.lookup(name@) is Some,
    {
        match self.find(name) {
            Some(i) => {
                proof {
                    lemma_link_of_at(self.entries@, i as int);
                }
                true
            },
            None => false,
        }
    }

    /// Remembers that `name` is attached through `link_id` at `ifindex`.
    pub fn insert(&mut self, name: &str, link_id: u64, ifindex: u32)
        requires
            old(self).wf(),
            old(self).lookup(name@) is None,
        ensures
            final(self).wf(),
            forall|n: Seq<char>| #[trigger]
                final(self).lookup(n) == if n == name@ {
                    Some((link_id, ifindex))
                } else {
                    old(self).lookup(n)
                },
    {
        let ghost old_es = self.entries@;
        self.entries.push(AttachedInterface { name: String::from_str(name), link_id, ifindex });
        proof {
            let es = self.entries@;
            let last = old_es.len() as int;
            assert(!has_name(old_es, name@)) by {
                if has_name(old_es, name@) {
                    let j = choose|j: int| 0 <= j < old_es.len() && #[trigger] old_es[j].name@ == name@;
                    lemma_link_of_at(old_es, j);
                }
            }
            assert(unique_names(es)) by {
                assert forall|a: int, b: int|
                    0 <= a < es.len() && 0 <= b < es.len() && #[trigger] es[a].name@
                        == #[trigger] es[b].name@ implies a == b by {
                    if a < last && b < last {
                        assert(old_es[a].name@ == es[a].name@);
                        assert(old_es[b].name@ == es[b].name@);
                    } else if a < last {
                        assert(old_es[a].name@ == name@);
                    } else if b < last {
                        assert(old_es[b].name@ == name@);
                    }
                }
            }
            assert forall|n: Seq<char>| #[trigger]
                self.lookup(n) == if n == name@ {
                    Some((link_id, ifindex))
                } else {
                    link_of(old_es, n)
                } by {
                if n == name@ {
                    lemma_link_of_at(es, last);
                } else if has_name(es, n) {
                    let j = choose|j: int| 0 <= j < es.len() && #[trigger] es[j].name@ == n;
                    lemma_link_of_at(es, j);
                    assert(j < last);
                    assert(old_es[j] == es[j]);
                    lemma_link_of_at(old_es, j);
                } else if has_name(old_es, n) {
                    let j = choose|j: int| 0 <= j < old_es.len() && #[trigger] old_es[j].name@ == n;
                    assert(es[j].name@ == n);
                }
            }
        }
    }

    /// Forgets `name`, returning its link and interface index; fails when
    /// it is not attached.
    pub fn remove(&mut self, name: &str) -> (r: Result<(u64, u32), String>)
        requires
            old(self).wf(),
        ensures
            final(self).wf(),
            match old(self).lookup(name@) {
                Some(v) => r == Ok::<(u64, u32), String>(v) && forall|n: Seq<char>| #[trigger]
                    final(self).lookup(n) == if n == name@ {
                        None
                    } else {
                        old(self).lookup(n)
                    },
                None => r matches Err(e) && e@ == "Interface "@ + name@ + " is not attached"@
                    && final(self).entries@ == old(self).entries@,
            },
    {
        let ghost old_es = self.entries@;
        match self.find(name) {
            None => {
                let mut msg = String::from_str("Interface ");
                msg.append(name);
                msg.append(" is not attached");
                proof {
                    assert(link_of(old_es, name@) is None);
                }
                Err(msg)
            },
            Some(i) => {
                proof {
                    lemma_link_of_at(old_es, i as int);
                }
                let e = self.entries.remove(i);
                proof {
                    let es = self.entries@;
                    assert(es =~= old_es.remove(i as int));
                    assert(unique_names(es)) by {
                        assert forall|a: int, b: int|
                            0 <= a < es.len() && 0 <= b < es.len() && #[trigger] es[a].name@
                                == #[trigger] es[b].name@ implies a == b by {
                            let oa = if a < i { a } else { a + 1 };
                            let ob = if b < i { b } else { b + 1 };
                            assert(old_es[oa] == es[a]);
                            assert(old_es[ob] == es[b]);
                        }
                    }
                    assert forall|n: Seq<char>| #[trigger]
                        self.lookup(n) == if n == name@ {
                            None
                        } else {
                            link_of(old_es, n)
                        } by {
                        if has_name(es, n) {
                            let j = choose|j: int| 0 <= j < es.len() && #[trigger] es[j].name@ == n;
                            let oj = if j < i { j } else { j + 1 };
                            assert(old_es[oj] == es[j]);
                            lemma_link_of_at(es, j);
                            lemma_link_of_at(old_es, oj);
                            assert(oj != i);
                        } else if n != name@ && has_name(old_es, n) {
                            let j = choose|j: int| 0 <= j < old_es.len() && #[trigger] old_es[j].name@ == n;
                            assert(j != i);
                            let nj = if j < i { j } else { j - 1 };
                            assert(es[nj] == old_es[j]);
                        }
                    }
                }
                Ok((e.link_id, e.ifindex))
            },
        }
    }

    /// Decides an attach of `name`, given the interface index the host
    /// reports for it: nothing to do when it is attached already, the
    /// "not found" error when the host has no such interface, else the index
    /// to attach at.
    pub fn plan_attach(&self, name: &str, ifindex: Option<u32>) -> (r: Result<Option<u32>, String>)
        requires
            self.wf(),
        ensures
            self.lookup(name@) is Some ==> r == Ok::<Option<u32>, String>(None),
            self.lookup(name@) is None && ifindex is None ==> (r matches Err(e) && e@
                == "Interface "@ + name@ + " not found"@),
            self.lookup(name@) is None && ifindex is Some ==> r == Ok::<Option<u32>, String>(ifindex),
    {
        if self.contains(name) {
            return Ok(None);
        }
        match ifindex {
            Some(i) => Ok(Some(i)),
            None => {
                let mut msg = String::from_str("Interface ");
                msg.append(name);
                msg.append(" not found");
                Err(msg)
            },
        }
    }

    /// Number of attached interfaces.
    pub fn len(&self) -> (r: usize)
        ensures
            r == self.entries@.len(),
    {
        self.entries.len()
    }
}

/// The capture session: idle or running, the packet counter, the current
/// session token, and the counters.
#[derive(Debug)]
pub struct CaptureSession {
    pub running: bool,
    /// Counter the next dequeued event receives.
    pub next_counter: u64,
    pub session_id: String,
    pub stats: CaptureStats,
}

impl CaptureSession {
    pub fn new() -> (r: CaptureSession)
        ensures
            !r.running,
            r.next_counter == 0,
            r.session_id@.len() == 0,
            r.stats == CaptureStats::zero(),
    {
        CaptureSession {
            running: false,
            next_counter: 0,
            session_id: String::new(),
            stats: CaptureStats::default(),
        }
    }

    pub fn is_running(&self) -> (r: bool)
        ensures
            r == self.running,
    {
        self.running
    }

    /// Starts the session with the fresh token `session_id`; returns whether
    /// it was idle. Starting a running session changes nothing.
    pub fn start(&mut self, session_id: String) -> (r: bool)
        ensures
            r == !old(self).running,
            final(self).running,
            final(self).next_counter == old(self).next_counter,
            final(self).stats == old(self).stats,
            final(self).session_id == if r {
                session_id
            } else {
                old(self).session_id
            },
    {
        if self.running {
            return false;
        }
        self.running = true;
        self.session_id = session_id;
        true
    }

    /// Stops the session; the counter keeps its value.
    pub fn stop(&mut self)
        ensures
            !final(self).running,
            final(self).next_counter == old(self).next_counter,
            final(self).stats == old(self).stats,
            final(self).session_id == old(self).session_id,
    {
        self.running = false;
    }

    /// Zeroes the counters and the session token; refused while running.
    pub fn reset(&mut self) -> (r: Result<(), CaptureError>)
        ensures
            old(self).running ==> (r matches Err(CaptureError::InvalidState(m)) && m@
                == "Capture is running"@) && final(self).next_counter == old(self).next_counter
                && final(self).stats == old(self).stats && final(self).session_id == old(self).session_id
                && final(self).running,
            !old(self).running ==> r is Ok && final(self).next_counter == 0 && final(self).stats
                == CaptureStats::zero() && final(self).session_id@.len() == 0 && !final(self).running,
    {
        if self.running {
            return Err(CaptureError::InvalidState(String::from_str("Capture is running")));
        }
        self.next_counter = 0;
        self.stats = CaptureStats::default();
        self.session_id = String::new();
        Ok(())
    }

    /// Attach and detach are only accepted while running.
    pub fn check_running(&self) -> (r: Result<(), CaptureError>)
        ensures
            self.running <==> r is Ok,
            !self.running ==> (r matches Err(CaptureError::InvalidState(m)) && m@
                == "Capture is not running"@),
    {
        if self.running {
            Ok(())
        } else {
            Err(CaptureError::InvalidState(String::from_str("Capture is not running")))
        }
    }

    /// Takes one ring-buffer record: a record shorter than an event is
    /// discarded and uses no counter; any other gets the next counter.
    pub fn accept_record(&mut self, record: &[u8]) -> (r: Option<(PacketEvent, u64)>)
        requires
            old(self).next_counter < u64::MAX,
        ensures
            final(self).running == old(self).running,
            final(self).stats == old(self).stats,
            final(self).session_id == old(self).session_id,
            record@.len() < EVENT_RECORD_LEN ==> r is None && final(self).next_counter == old(
                self).next_counter,
            record@.len() >= EVENT_RECORD_LEN ==> r == Some((record_event(record@), old(self).next_counter))
                && final(self).next_counter == old(self).next_counter + 1,
    {
        match decode_event(record) {
            Some(event) => Some((event, self.take_counter())),
            None => None,
        }
    }

    /// Hands out the next packet counter.
    pub fn take_counter(&mut self) -> (r: u64)
        requires
            old(self).next_counter < u64::MAX,
        ensures
            r == old(self).next_counter,
            final(self).next_counter == old(self).next_counter + 1,
            final(self).running == old(self).running,
            final(self).stats == old(self).stats,
            final(self).session_id == old(self).session_id,
    {
        let c = self.next_counter;
        self.next_counter = c + 1;
        c
    }
}

/// What the control interface reports of the session.
#[derive(Debug, Clone)]
pub struct CaptureStatusResponse {
    pub is_capturing: bool,
    pub stats: CaptureStats,
    pub mode: String,
}

impl CaptureSession {
    /// The status of the session, for a backend running in `mode`.
    pub fn status(&self, mode: &str) -> (r: CaptureStatusResponse)
        ensures
            r.is_capturing == self.running,
            r.stats == self.stats,
            r.mode@ == mode@,
    {
        CaptureStatusResponse {
            is_capturing: self.running,
            stats: self.stats,
            mode: String::from_str(mode),
        }
    }
}

} // verus!
