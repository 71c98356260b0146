//! Per-process state tracked in userspace, populated from kernel events, and
//! the process-tree trace that a detection reports.
use crate::config::{first_prefix_index, Config};
use crate::event::{c_string_text, decode_c_string, EventType, ProcessEvent};
use crate::text::{decimal, push_decimal};
use std::collections::{HashMap, HashSet};
use vstd::prelude::*;

verus! {

broadcast use vstd::std_specs::hash::group_hash_axioms;

/// Per-process state tracked in userspace, populated from kernel events.
#[derive(Debug, Clone)]
pub struct ProcInfo {
    pub ppid: u32,
    pub uid: u32,
    pub comm: String,
    /// Last binary exec'd by this pid (empty until an execve is seen).
    pub path: String,
}

/// Nothing known of a process: no parent, uid 0, no name, no binary.
pub open spec fn is_blank(info: ProcInfo) -> bool {
    &&& info.ppid == 0
    &&& info.uid == 0
    &&& info.comm@.len() == 0
    &&& info.path@.len() == 0
}

impl Default for ProcInfo {
    fn default() -> (info: Self)
        ensures
            is_blank(info),
    {
        ProcInfo { ppid: 0, uid: 0, comm: String::new(), path: String::new() }
    }
}

impl ProcInfo {
    /// A copy of this record.
    pub fn duplicate(&self) -> (info: ProcInfo)
        ensures
            info == *self,
    {
        ProcInfo { ppid: self.ppid, uid: self.uid, comm: self.comm.clone(), path: self.path.clone() }
    }
}

/// `new` is `old` after a fork of `pid` from `ppid`: the parent link, uid and
/// name are recorded, a binary already known for `pid` is kept, and no other
/// process changes.
pub open spec fn after_fork(
    old: Map<u32, ProcInfo>,
    new: Map<u32, ProcInfo>,
    pid: u32,
    ppid: u32,
    uid: u32,
    comm: Seq<char>,
) -> bool {
    &&& new.contains_key(pid)
    &&& new[pid].ppid == ppid
    &&& new[pid].uid == uid
    &&& new[pid].comm@ == comm
    &&& new[pid].path@ == if old.contains_key(pid) {
        old[pid].path@
    } else {
        Seq::empty()
    }
    &&& new.remove(pid) == old.remove(pid)
}

/// `new` is `old` after `pid` executed `path`: uid, name and binary are
/// recorded, the parent learned at fork time is kept (an execve does not
/// change the parent), and no other process changes.
pub open spec fn after_exec(
    old: Map<u32, ProcInfo>,
    new: Map<u32, ProcInfo>,
    pid: u32,
    uid: u32,
    comm: Seq<char>,
    path: Seq<char>,
) -> bool {
    &&& new.contains_key(pid)
    &&& new[pid].ppid == if old.contains_key(pid) {
        old[pid].ppid
    } else {
        0
    }
    &&& new[pid].uid == uid
    &&& new[pid].comm@ == comm
    &&& new[pid].path@ == path
    &&& new.remove(pid) == old.remove(pid)
}

/// Step `i` of `chain` follows a recorded parent link: the process is known,
/// its record is the one in `table`, and the next process is its parent.
pub open spec fn links_to_parent(table: Map<u32, ProcInfo>, chain: Seq<(u32, ProcInfo)>, i: int) -> bool {
    let pid = chain[i].0;
    let info = chain[i].1;
    &&& table.contains_key(pid)
    &&& table[pid] == info
    &&& info.ppid != 0
    &&& info.ppid != pid
    &&& chain[i + 1].0 == info.ppid
}

/// The last step of `chain` ends the walk: a known process whose parent is
/// none (0) or was already visited, or a process not known (which forked
/// before recording began), recorded with a blank record.
pub open spec fn ends_walk(table: Map<u32, ProcInfo>, chain: Seq<(u32, ProcInfo)>) -> bool {
    let pid = chain.last().0;
    let info = chain.last().1;
    if table.contains_key(pid) {
        &&& table[pid] == info
        &&& (info.ppid == 0 || exists|k: int| 0 <= k < chain.len() && chain[k].0 == info.ppid)
    } else {
        is_blank(info)
    }
}

/// `chain` is the walk up the process tree from `start`, leaf first,
/// following the parent links in `table`, never visiting a pid twice.
pub open spec fn is_ancestry(table: Map<u32, ProcInfo>, start: u32, chain: Seq<(u32, ProcInfo)>) -> bool {
    &&& chain.len() > 0
    &&& chain[0].0 == start
    &&& forall|i: int, j: int| 0 <= i < j < chain.len() ==> chain[i].0 != chain[j].0
    &&& forall|i: int| 0 <= i < chain.len() - 1 ==> #[trigger] links_to_parent(table, chain, i)
    &&& ends_walk(table, chain)
}

/// The pids of a chain, in order.
pub open spec fn chain_pids(chain: Seq<(u32, ProcInfo)>) -> Seq<u32> {
    chain.map_values(|e: (u32, ProcInfo)| e.0)
}

/// Distinct pids that all belong to a finite domain number at most its size.
proof fn lemma_distinct_within(pids: Seq<u32>, dom: Set<u32>)
    requires
        dom.finite(),
        forall|i: int, j: int| 0 <= i < j < pids.len() ==> pids[i] != pids[j],
        forall|i: int| 0 <= i < pids.len() ==> dom.contains(#[trigger] pids[i]),
    ensures
        pids.len() <= dom.len(),
{
    assert(pids.no_duplicates()) by {
        assert forall|i: int, j: int|
            0 <= i < pids.len() && 0 <= j < pids.len() && i != j implies pids[i] != pids[j] by {
            assert(i < j || j < i);
        }
    }
    pids.unique_seq_to_set();
    broadcast use vstd::seq_lib::group_seq_properties;
    assert(pids.to_set().subset_of(dom)) by {
        assert forall|x: u32| pids.to_set().contains(x) implies dom.contains(x) by {
            let k = choose|k: int| 0 <= k < pids.len() && pids[k] == x;
            assert(dom.contains(pids[k]));
        }
    }
    vstd::set_lib::lemma_len_subset(pids.to_set(), dom);
}

/// Walk the process tree from `start` up towards the root, following the
/// parent links recorded from fork events. Returns the chain leaf-first.
pub fn ancestry(table: &HashMap<u32, ProcInfo>, start: u32) -> (chain: Vec<(u32, ProcInfo)>)
    ensures
        is_ancestry(table@, start, chain@),
        chain@.len() <= table@.len() + 1,
{
    let ghost t = table@;
    let mut chain: Vec<(u32, ProcInfo)> = Vec::new();
    let mut seen: HashSet<u32> = HashSet::new();
    let mut cur = start;
    proof {
        assert(t.dom().finite());
    }
    loop
        invariant_except_break
            t == table@,
            t.dom().finite(),
            seen@ == chain_pids(chain@).to_set(),
            chain@.len() == 0 ==> cur == start,
            chain@.len() > 0 ==> chain@[0].0 == start,
            chain@.len() > 0 ==> ({
                let last = chain@.last();
                &&& t.contains_key(last.0)
                &&& t[last.0] == last.1
                &&& last.1.ppid != 0
                &&& last.1.ppid != last.0
                &&& cur == last.1.ppid
            }),
            forall|i: int, j: int| 0 <= i < j < chain@.len() ==> chain@[i].0 != chain@[j].0,
            forall|i: int| 0 <= i < chain@.len() - 1 ==> #[trigger] links_to_parent(t, chain@, i),
            forall|i: int| 0 <= i < chain@.len() ==> t.contains_key(#[trigger] chain@[i].0),
            chain@.len() <= t.dom().len(),
        ensures
            is_ancestry(t, start, chain@),
            chain@.len() <= t.len() + 1,
        decreases t.dom().len() - chain@.len(),
    {
        let ghost before = chain@;
        if !seen.insert(cur) {
            proof {
                assert(chain_pids(before).to_set().contains(cur));
                let k = choose|k: int| 0 <= k < before.len() && chain_pids(before)[k] == cur;
                assert(before[k].0 == cur);
                assert(before.len() > 0);
            }
            break;
        }
        match table.get(&cur) {
            Some(info) => {
                let ppid = info.ppid;
                chain.push((cur, info.duplicate()));
                proof {
                    assert(chain_pids(chain@) =~= chain_pids(before).push(cur));
                    chain_pids(before).lemma_push_to_set_commute(cur);
                    assert forall|i: int| 0 <= i < chain@.len() - 1 implies #[trigger] links_to_parent(t, chain@, i) by {
                        if i < before.len() - 1 {
                            assert(links_to_parent(t, before, i));
                        }
                    }
                    assert forall|i: int, j: int| 0 <= i < j < chain@.len() implies chain@[i].0 != chain@[j].0 by {
                        if j == before.len() {
                            assert(chain_pids(before)[i] == before[i].0);
                        }
                    }
                    lemma_distinct_within(chain_pids(chain@), t.dom());
                }
                if ppid == 0 || ppid == cur {
                    break;
                }
                cur = ppid;
            },
            None => {
                chain.push((cur, ProcInfo::default()));
                proof {
                    assert forall|i: int| 0 <= i < chain@.len() - 1 implies #[trigger] links_to_parent(t, chain@, i) by {
                        if i < before.len() - 1 {
                            assert(links_to_parent(t, before, i));
                        }
                    }
                    assert forall|i: int, j: int| 0 <= i < j < chain@.len() implies chain@[i].0 != chain@[j].0 by {
                        if j == before.len() {
                            assert(chain_pids(before)[i] == before[i].0);
                        }
                    }
                    lemma_distinct_within(chain_pids(before), t.dom());
                }
                break;
            },
        }
    }
    chain
}

/// What a trace shows for a process: its binary, else its name, else `?`.
pub open spec fn node_label(info: ProcInfo) -> Seq<char> {
    if info.path@.len() > 0 {
        info.path@
    } else if info.comm@.len() > 0 {
        info.comm@
    } else {
        "?"@
    }
}

/// `pid=<pid>(<label>)`.
pub open spec fn node_text(pid: u32, info: ProcInfo) -> Seq<char> {
    "pid="@ + decimal(pid as nat) + "("@ + node_label(info) + ")"@
}

/// The nodes of `chain`, in order, joined by ` <- `.
pub open spec fn tree_text(chain: Seq<(u32, ProcInfo)>) -> Seq<char>
    decreases chain.len(),
{
    if chain.len() == 0 {
        Seq::empty()
    } else if chain.len() == 1 {
        node_text(chain[0].0, chain[0].1)
    } else {
        tree_text(chain.drop_last()) + " <- "@ + node_text(chain.last().0, chain.last().1)
    }
}

/// Render a process-tree chain (leaf-first) into a readable line.
pub fn format_tree(chain: &[(u32, ProcInfo)]) -> (line: String)
    ensures
        line@ == tree_text(chain@),
{
    let mut line = String::new();
    let mut i: usize = 0;
    assert(chain@.take(0) =~= Seq::<(u32, ProcInfo)>::empty());
    while i < chain.len()
        invariant
            i <= chain@.len(),
            line@ == tree_text(chain@.take(i as int)),
        decreases chain@.len() - i,
    {
        let ghost before = line@;
        let (pid, info) = &chain[i];
        if i > 0 {
            line.append(" <- ");
        }
        let ghost sep = line@;
        line.append("pid=");
        push_decimal(&mut line, *pid);
        line.append("(");
        if !info.path.as_str().is_empty() {
            line.append(info.path.as_str());
        } else if !info.comm.as_str().is_empty() {
            line.append(info.comm.as_str());
        } else {
            line.append("?");
        }
        line.append(")");
        assert(line@ =~= sep + node_text(*pid, *info));
        i = i + 1;
        proof {
            let taken = chain@.take(i as int);
            assert(taken.last() == chain@[i - 1]);
            if i > 1 {
                assert(taken.drop_last() =~= chain@.take(i - 1));
            }
        }
    }
    assert(chain@.take(i as int) =~= chain@);
    line
}

/// The process table: per-process state keyed by pid, built from the
/// kernel events.
pub struct ProcessTable {
    pub procs: HashMap<u32, ProcInfo>,
}

impl ProcessTable {
    /// An empty table.
    pub fn new() -> (t: ProcessTable)
        ensures
            t.procs@ == Map::<u32, ProcInfo>::empty(),
    {
        ProcessTable { procs: HashMap::new() }
    }

    /// The record of `pid`, or a blank record when it is not known.
    fn record_of(&self, pid: u32) -> (info: ProcInfo)
        ensures
            if self.procs@.contains_key(pid) {
                info == self.procs@[pid]
            } else {
                is_blank(info)
            },
    {
        match self.procs.get(&pid) {
            Some(info) => info.duplicate(),
            None => ProcInfo::default(),
        }
    }

    /// Records the parent link for a freshly forked `pid`, keeping any binary
    /// already known for it.
    pub fn record_fork(&mut self, pid: u32, ppid: u32, uid: u32, comm: String)
        ensures
            after_fork(old(self).procs@, final(self).procs@, pid, ppid, uid, comm@),
    {
        let mut info = self.record_of(pid);
        info.ppid = ppid;
        info.uid = uid;
        info.comm = comm;
        let ghost recorded = info;
        self.procs.insert(pid, info);
        assert(self.procs@[pid] == recorded);
        assert(recorded.path@ == if old(self).procs@.contains_key(pid) { old(self).procs@[pid].path@ } else { Seq::empty() });
        assert(self.procs@.remove(pid) =~= old(self).procs@.remove(pid));
    }

    /// Records that `pid` executed `path`, keeping the parent learned at fork
    /// time.
    pub fn record_exec(&mut self, pid: u32, uid: u32, comm: String, path: String)
        ensures
            after_exec(old(self).procs@, final(self).procs@, pid, uid, comm@, path@),
    {
        let mut info = self.record_of(pid);
        info.uid = uid;
        info.comm = comm;
        info.path = path;
        self.procs.insert(pid, info);
        assert(self.procs@.remove(pid) =~= old(self).procs@.remove(pid));
    }

    /// Forgets `pid`, which exited.
    pub fn record_exit(&mut self, pid: u32)
        ensures
            final(self).procs@ == old(self).procs@.remove(pid),
    {
        self.procs.remove(&pid);
    }

    /// Applies one kernel event to the table. An execve whose binary path
    /// starts with a monitored directory is a detection: the result is then
    /// the process-tree trace of the process, else `None`.
    pub fn observe(&mut self, config: &Config, event: &ProcessEvent) -> (detection: Option<String>)
        ensures
            ({
                let before = old(self).procs@;
                let after = final(self).procs@;
                let comm = c_string_text(event.comm@);
                let path = c_string_text(event.filename@);
                let dirs = config.monitor_dirs.deep_view();
                match event.event_type {
                    EventType::Fork => {
                        &&& after_fork(before, after, event.pid, event.parent_pid, event.uid, comm)
                        &&& detection is None
                    },
                    EventType::Exec => {
                        &&& after_exec(before, after, event.pid, event.uid, comm, path)
                        &&& (detection is Some <==> first_prefix_index(dirs, path) < dirs.len())
                        &&& (detection matches Some(trace) ==> exists|chain: Seq<(u32, ProcInfo)>|
                            is_ancestry(after, event.pid, chain) && trace@ == tree_text(chain))
                    },
                    EventType::Exit => {
                        &&& after == before.remove(event.pid)
                        &&& detection is None
                    },
                }
            }),
    {
        let comm = decode_c_string(&event.comm);
        let path = decode_c_string(&event.filename);
        match event.event_type {
            EventType::Fork => {
                self.record_fork(event.pid, event.parent_pid, event.uid, comm);
                None
            },
            EventType::Exec => {
                let matched = config.matching_prefix(path.as_str()).is_some();
                self.record_exec(event.pid, event.uid, comm, path);
                if matched {
                    let chain = ancestry(&self.procs, event.pid);
                    let trace = format_tree(chain.as_slice());
                    Some(trace)
                } else {
                    None
                }
            },
            EventType::Exit => {
                self.record_exit(event.pid);
                None
            },
        }
    }
}

/// The detection notice that precedes a process-tree trace.
pub const DETECTION_NOTICE: &'static str =
    "[DETECT] %1000%: executed suspicious process in monitored directory.; tree: ";

/// The detection message for a trace: the notice, then the trace.
pub fn detection_message(trace: &str) -> (msg: String)
    ensures
        msg@ == DETECTION_NOTICE@ + trace@,
{
    let mut msg = DETECTION_NOTICE.to_owned();
    msg.append(trace);
    msg
}

/// The detection-log entry for a trace: the timestamp, a space, and the
/// detection message.
pub fn detection_record(timestamp: &str, trace: &str) -> (entry: String)
    ensures
        entry@ == timestamp@ + " "@ + DETECTION_NOTICE@ + trace@,
{
    let mut entry = timestamp.to_owned();
    entry.append(" ");
    entry.append(DETECTION_NOTICE);
    entry.append(trace);
    entry
}

/// Two records that show the same: same parent, uid, name and binary.
pub open spec fn same_record(a: ProcInfo, b: ProcInfo) -> bool {
    &&& a.ppid == b.ppid
    &&& a.uid == b.uid
    &&& a.comm@ == b.comm@
    &&& a.path@ == b.path@
}

/// Two walks from the same start agree up to step `k`, and step `k` ends
/// one exactly when it ends the other.
proof fn lemma_ancestries_agree(
    t: Map<u32, ProcInfo>,
    start: u32,
    c1: Seq<(u32, ProcInfo)>,
    c2: Seq<(u32, ProcInfo)>,
    k: int,
)
    requires
        is_ancestry(t, start, c1),
        is_ancestry(t, start, c2),
        0 <= k < c1.len(),
        k < c2.len(),
    ensures
        forall|j: int| 0 <= j <= k ==> c1[j].0 == c2[j].0 && same_record(c1[j].1, c2[j].1),
        (k == c1.len() - 1) == (k == c2.len() - 1),
    decreases k,
{
    if k > 0 {
        lemma_ancestries_agree(t, start, c1, c2, k - 1);
        assert(links_to_parent(t, c1, k - 1));
        assert(links_to_parent(t, c2, k - 1));
    }
    let p = c1[k].0;
    assert(p == c2[k].0);
    if k < c1.len() - 1 {
        assert(links_to_parent(t, c1, k));
    }
    if k < c2.len() - 1 {
        assert(links_to_parent(t, c2, k));
    }
    if k == c1.len() - 1 {
        assert(c1.last() == c1[k]);
    }
    if k == c2.len() - 1 {
        assert(c2.last() == c2[k]);
    }
    if t.contains_key(p) {
        assert(c1[k].1 == t[p]);
        assert(c2[k].1 == t[p]);
        let pp = t[p].ppid;
        if k < c1.len() - 1 && k == c2.len() - 1 && pp != 0 {
            let m = choose|m: int| 0 <= m < c2.len() && c2[m].0 == pp;
            assert(c1[m].0 == c2[m].0);
            assert(c1[m].0 != c1[k + 1].0);
        }
        if k < c2.len() - 1 && k == c1.len() - 1 && pp != 0 {
            let m = choose|m: int| 0 <= m < c1.len() && c1[m].0 == pp;
            assert(c1[m].0 == c2[m].0);
            assert(c2[m].0 != c2[k + 1].0);
        }
    } else {
        assert(c1[k].1.comm@ =~= c2[k].1.comm@);
        assert(c1[k].1.path@ =~= c2[k].1.path@);
    }
}

/// Chains that agree step by step render the same trace.
proof fn lemma_same_trace(c1: Seq<(u32, ProcInfo)>, c2: Seq<(u32, ProcInfo)>)
    requires
        c1.len() == c2.len(),
        forall|j: int| 0 <= j < c1.len() ==> c1[j].0 == c2[j].0 && same_record(c1[j].1, c2[j].1),
    ensures
        tree_text(c1) == tree_text(c2),
    decreases c1.len(),
{
    if c1.len() > 1 {
        lemma_same_trace(c1.drop_last(), c2.drop_last());
    }
    if c1.len() > 0 {
        assert(c1.last().0 == c2.last().0 && same_record(c1.last().1, c2.last().1));
        assert(c1[0].0 == c2[0].0 && same_record(c1[0].1, c2[0].1));
    }
}

/// The walk up the process tree is determined by the table and the start:
/// two walks visit the same processes, show the same records and render the
/// same trace.
pub proof fn ancestry_is_unique(
    table: Map<u32, ProcInfo>,
    start: u32,
    c1: Seq<(u32, ProcInfo)>,
    c2: Seq<(u32, ProcInfo)>,
)
    requires
        is_ancestry(table, start, c1),
        is_ancestry(table, start, c2),
    ensures
        c1.len() == c2.len(),
        forall|j: int| 0 <= j < c1.len() ==> c1[j].0 == c2[j].0 && same_record(c1[j].1, c2[j].1),
        tree_text(c1) == tree_text(c2),
{
    let k = if c1.len() < c2.len() {
        c1.len() - 1
    } else {
        c2.len() - 1
    };
    lemma_ancestries_agree(table, start, c1, c2, k);
    lemma_same_trace(c1, c2);
}

} // verus!
