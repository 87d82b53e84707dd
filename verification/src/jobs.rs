use vstd::prelude::*;
use vstd::std_specs::iter::IteratorSpec;
use vstd::std_specs::btree::{increasing_seq, spec_keys_iter};
use vstd::std_specs::cmp::OrdSpec;

use std::collections::BTreeMap;

use crate::builtins::BuiltinResult;
use crate::redirect::{opt_view, CmdOutput};
use crate::text::{string_views, decimal, decimal_string, join, join_seq, push_char, push_str, trim, trim_string, utf8_text};
use vstd::utf8::{decode_utf8, valid_utf8};

verus! {

broadcast use vstd::std_specs::btree::group_btree_axioms;

/// A background job: its status text (padded with spaces), the command
/// line it runs, and the process id while it is still running.
pub struct Job {
    pub status: [u8; 24],
    pub command: String,
    pub pid: Option<u32>,
}

/// The job table, kept sorted by job id, and the last id handed out.
pub struct JobContext {
    pub job_table: BTreeMap<u32, Job>,
    pub recent_job_id: u32,
}

/// What a [`Job`] holds, as values.
pub struct JobSpec {
    pub status: Seq<u8>,
    pub command: Seq<char>,
    pub pid: Option<u32>,
}

impl View for Job {
    type V = JobSpec;

    open spec fn view(&self) -> JobSpec {
        JobSpec { status: self.status@, command: self.command@, pid: self.pid }
    }
}

/// An event emitted when a background job exits.
#[derive(Debug)]
pub struct JobEvent {
    pub job_id: u32,
    pub pid: u32,
    pub exit_code: i32,
    pub command: String,
}

/// What a [`JobEvent`] holds, as values.
pub struct JobEventSpec {
    pub job_id: u32,
    pub pid: u32,
    pub exit_code: i32,
    pub command: Seq<char>,
}

impl View for JobEvent {
    type V = JobEventSpec;

    open spec fn view(&self) -> JobEventSpec {
        JobEventSpec {
            job_id: self.job_id,
            pid: self.pid,
            exit_code: self.exit_code,
            command: self.command@,
        }
    }
}

/// `s` is strictly increasing.
pub open spec fn increasing(s: Seq<u32>) -> bool {
    forall|i: int, j: int| 0 <= i < j < s.len() ==> s[i] < s[j]
}

/// The ids of `table`, in increasing order.
pub fn sorted_ids(table: &BTreeMap<u32, Job>) -> (ids: Vec<u32>)
    ensures
        ids@ == sorted_keys(table@.dom()),
        increasing(ids@),
        ids@.to_set() == table@.dom(),
{
    let ghost all = spec_keys_iter(table).remaining();
    let mut ids: Vec<u32> = Vec::new();
    for k in it: table.keys()
        invariant
            it.seq() == all,
            all.len() == table@.dom().len(),
            ids@.len() == it.index(),
            forall|j: int| 0 <= j < ids@.len() ==> ids@[j] == *all[j],
    {
        ids.push(*k);
    }
    assert(ids@ =~= all.unref());
    assert(increasing_seq(all));
    assert(increasing(ids@)) by {
        assert forall|i: int, j: int| 0 <= i < j < ids@.len() implies ids@[i] < ids@[j] by {
            assert(OrdSpec::cmp_spec(&all[i], &all[j]) is Less);
            assert((*all[i]).cmp_spec(&*all[j]) is Less);
        }
    }
    assert(ids@.to_set() =~= table@.dom()) by {
        assert forall|k: u32| table@.dom().contains(k) implies ids@.contains(k) by {
            assert(all.unref().to_set().contains(k));
        }
    }
    proof {
        lemma_sorted_keys(table@.dom(), ids@);
    }
    ids
}


/// The keys of `dom` in increasing order.
pub open spec fn sorted_keys(dom: Set<u32>) -> Seq<u32> {
    choose|s: Seq<u32>| increasing(s) && s.to_set() == dom
}

/// Two increasing sequences with the same elements are equal.
proof fn lemma_increasing_unique(s1: Seq<u32>, s2: Seq<u32>)
    requires
        increasing(s1),
        increasing(s2),
        s1.to_set() == s2.to_set(),
    ensures
        s1 == s2,
    decreases s1.len() + s2.len(),
{
    if s1.len() == 0 {
        if s2.len() > 0 {
            assert(s2.to_set().contains(s2[0]));
        }
        assert(s1 =~= s2);
    } else if s2.len() == 0 {
        assert(s1.to_set().contains(s1[0]));
    } else {
        // Both start with the least element.
        assert(s1.to_set().contains(s1[0]));
        assert(s2.to_set().contains(s2[0]));
        let i1 = choose|i: int| 0 <= i < s1.len() && s1[i] == s2[0];
        let i2 = choose|i: int| 0 <= i < s2.len() && s2[i] == s1[0];
        assert(s1[0] <= s1[i1]);
        assert(s2[0] <= s2[i2]);
        assert(s1[0] == s2[0]);
        let t1 = s1.drop_first();
        let t2 = s2.drop_first();
        assert(t1.to_set() =~= t2.to_set()) by {
            assert forall|x: u32| t1.to_set().contains(x) implies t2.to_set().contains(x) by {
                let k = choose|k: int| 0 <= k < t1.len() && t1[k] == x;
                assert(s1[k + 1] == x);
                assert(s2.to_set().contains(x));
                let m = choose|m: int| 0 <= m < s2.len() && s2[m] == x;
                assert(m != 0);
                assert(t2[m - 1] == x);
            }
            assert forall|x: u32| t2.to_set().contains(x) implies t1.to_set().contains(x) by {
                let k = choose|k: int| 0 <= k < t2.len() && t2[k] == x;
                assert(s2[k + 1] == x);
                assert(s1.to_set().contains(x));
                let m = choose|m: int| 0 <= m < s1.len() && s1[m] == x;
                assert(m != 0);
                assert(t1[m - 1] == x);
            }
        }
        lemma_increasing_unique(t1, t2);
        assert(s1 =~= s2) by {
            assert forall|k: int| 0 <= k < s1.len() implies s1[k] == s2[k] by {
                if k > 0 {
                    assert(s1[k] == t1[k - 1]);
                    assert(s2[k] == t2[k - 1]);
                }
            }
        }
    }
}

/// An increasing sequence of the keys is the sorted keys.
proof fn lemma_sorted_keys(dom: Set<u32>, s: Seq<u32>)
    requires
        increasing(s),
        s.to_set() == dom,
    ensures
        sorted_keys(dom) == s,
        increasing(sorted_keys(dom)),
        sorted_keys(dom).to_set() == dom,
{
    let t = sorted_keys(dom);
    assert(increasing(t) && t.to_set() == dom);
    lemma_increasing_unique(s, t);
}

/// The table as values.
pub open spec fn table_view(m: Map<u32, Job>) -> Map<u32, JobSpec> {
    Map::new(|id: u32| m.contains_key(id), |id: u32| m[id]@)
}

/// `word` padded with spaces to the 24 bytes of a status.
pub open spec fn padded(word: Seq<u8>) -> Seq<u8> {
    word + Seq::new((24 - word.len()) as nat, |i: int| 32u8)
}

/// The bytes of `Running`.
pub open spec fn running_word() -> Seq<u8> {
    seq![82u8, 117u8, 110u8, 110u8, 105u8, 110u8, 103u8]
}

/// The bytes of `Done`.
pub open spec fn done_word() -> Seq<u8> {
    seq![68u8, 111u8, 110u8, 101u8]
}

/// The status of a job that is still running.
pub fn running_status() -> (s: [u8; 24])
    ensures
        s@ == padded(running_word()),
{
    let s: [u8; 24] = [
        82, 117, 110, 110, 105, 110, 103, 32, 32, 32, 32, 32, 32, 32, 32, 32, 32, 32, 32, 32, 32, 32,
        32, 32,
    ];
    assert(s@ =~= padded(running_word()));
    s
}

/// The status of a job that has exited.
pub fn done_status() -> (s: [u8; 24])
    ensures
        s@ == padded(done_word()),
{
    let s: [u8; 24] = [
        68, 111, 110, 101, 32, 32, 32, 32, 32, 32, 32, 32, 32, 32, 32, 32, 32, 32, 32, 32, 32, 32,
        32, 32,
    ];
    assert(s@ =~= padded(done_word()));
    s
}

/// The exit code reported for `pid`: the first entry of `exits` for it.
pub open spec fn exit_code_of(exits: Seq<(u32, i32)>, pid: u32) -> Option<i32>
    decreases exits.len(),
{
    if exits.len() == 0 {
        None
    } else if exits[0].0 == pid {
        Some(exits[0].1)
    } else {
        exit_code_of(exits.drop_first(), pid)
    }
}

fn find_exit_code(exits: &[(u32, i32)], pid: u32) -> (r: Option<i32>)
    ensures
        r == exit_code_of(exits@, pid),
{
    let mut i: usize = 0;
    assert(exits@.skip(0) =~= exits@);
    while i < exits.len()
        invariant
            i <= exits@.len(),
            exit_code_of(exits@.skip(i as int), pid) == exit_code_of(exits@, pid),
        decreases exits@.len() - i,
    {
        assert(exits@.skip(i as int)[0] == exits@[i as int]);
        assert(exits@.skip(i as int).drop_first() =~= exits@.skip(i + 1));
        if exits[i].0 == pid {
            return Some(exits[i].1);
        }
        i = i + 1;
    }
    None
}

/// A job after the exits: one whose process is among `exits` is done and
/// has no process any more; any other is unchanged.
pub open spec fn after_exits(j: JobSpec, exits: Seq<(u32, i32)>) -> JobSpec {
    match j.pid {
        Some(p) => if exit_code_of(exits, p) is Some {
            JobSpec { status: padded(done_word()), command: j.command, pid: None }
        } else {
            j
        },
        None => j,
    }
}

/// The table after the exits.
pub open spec fn updated(t: Map<u32, JobSpec>, exits: Seq<(u32, i32)>) -> Map<u32, JobSpec> {
    Map::new(|id: u32| t.contains_key(id), |id: u32| after_exits(t[id], exits))
}

/// The jobs of the table that still have a process.
pub open spec fn running_only(t: Map<u32, JobSpec>) -> Map<u32, JobSpec> {
    Map::new(|id: u32| t.contains_key(id) && t[id].pid is Some, |id: u32| t[id])
}

/// The events for the jobs `ids` whose process is among `exits`, in order.
pub open spec fn exit_events(t: Map<u32, JobSpec>, ids: Seq<u32>, exits: Seq<(u32, i32)>) -> Seq<
    JobEventSpec,
>
    decreases ids.len(),
{
    if ids.len() == 0 {
        Seq::empty()
    } else {
        let rest = exit_events(t, ids.drop_last(), exits);
        let id = ids.last();
        let j = t[id];
        match j.pid {
            Some(p) => match exit_code_of(exits, p) {
                Some(c) => rest.push(
                    JobEventSpec { job_id: id, pid: p, exit_code: c, command: j.command },
                ),
                None => rest,
            },
            None => rest,
        }
    }
}

/// The process ids of the running jobs, in the order of the job ids.
pub open spec fn running_pids_of(t: Map<u32, JobSpec>, ids: Seq<u32>) -> Seq<u32>
    decreases ids.len(),
{
    if ids.len() == 0 {
        Seq::empty()
    } else {
        let rest = running_pids_of(t, ids.drop_last());
        match t[ids.last()].pid {
            Some(p) => rest.push(p),
            None => rest,
        }
    }
}

/// The process ids of the running jobs, in the order of the job ids: the
/// processes whose exit is to be checked.
pub fn running_pids(job_table: &BTreeMap<u32, Job>) -> (pids: Vec<u32>)
    ensures
        pids@ == running_pids_of(table_view(job_table@), sorted_keys(job_table@.dom())),
{
    let ids = sorted_ids(job_table);
    let ghost t = table_view(job_table@);
    let mut pids: Vec<u32> = Vec::new();
    let mut i: usize = 0;
    assert(ids@.take(0) =~= Seq::<u32>::empty());
    while i < ids.len()
        invariant
            i <= ids@.len(),
            ids@ == sorted_keys(job_table@.dom()),
            ids@.to_set() == job_table@.dom(),
            t == table_view(job_table@),
            pids@ == running_pids_of(t, ids@.take(i as int)),
        decreases ids@.len() - i,
    {
        let id = ids[i];
        assert(ids@.take(i + 1).drop_last() =~= ids@.take(i as int));
        assert(ids@.to_set().contains(id));
        match job_table.get(&id) {
            Some(job) => {
                match job.pid {
                    Some(p) => pids.push(p),
                    None => {},
                }
            },
            None => {},
        }
        i = i + 1;
    }
    assert(ids@.take(ids@.len() as int) =~= ids@);
    pids
}

/// Record the exits of background processes: each job whose process is
/// among `exits` (process id and exit code) becomes done and loses its
/// process id. Returns an event for each such job, in job id order.
pub fn reap_exited_jobs(job_table: &mut BTreeMap<u32, Job>, exits: &[(u32, i32)]) -> (events: Vec<
    JobEvent,
>)
    ensures
        table_view(final(job_table)@) == updated(table_view(old(job_table)@), exits@),
        events@.map_values(|e: JobEvent| e@) == exit_events(
            table_view(old(job_table)@),
            sorted_keys(old(job_table)@.dom()),
            exits@,
        ),
{
    let ghost t0 = table_view(job_table@);
    let ghost dom = job_table@.dom();
    let ids = sorted_ids(job_table);
    let mut events: Vec<JobEvent> = Vec::new();
    let mut i: usize = 0;
    assert(ids@.take(0) =~= Seq::<u32>::empty());
    assert(events@.map_values(|e: JobEvent| e@) =~= Seq::<JobEventSpec>::empty());
    while i < ids.len()
        invariant
            i <= ids@.len(),
            increasing(ids@),
            ids@.to_set() == dom,
            job_table@.dom() == dom,
            forall|k: int| 0 <= k < i ==> table_view(job_table@)[#[trigger] ids@[k]] == after_exits(
                t0[ids@[k]],
                exits@,
            ),
            forall|k: int| i <= k < ids@.len() ==> table_view(job_table@)[#[trigger] ids@[k]] == t0[ids@[k]],
            t0.dom() == dom,
            events@.map_values(|e: JobEvent| e@) == exit_events(t0, ids@.take(i as int), exits@),
        decreases ids@.len() - i,
    {
        let id = ids[i];
        let ghost before = job_table@;
        let ghost ev_before = events@.map_values(|e: JobEvent| e@);
        assert(ids@.take(i + 1).drop_last() =~= ids@.take(i as int));
        assert(ids@.to_set().contains(id));
        assert(table_view(before)[id] == t0[id]);
        match job_table.remove(&id) {
            Some(job) => {
                let new_job = match job.pid {
                    Some(pid) => match find_exit_code(exits, pid) {
                        Some(code) => {
                            events.push(
                                JobEvent {
                                    job_id: id,
                                    pid,
                                    exit_code: code,
                                    command: job.command.clone(),
                                },
                            );
                            Job { status: done_status(), command: job.command, pid: None }
                        },
                        None => job,
                    },
                    None => job,
                };
                job_table.insert(id, new_job);
            },
            None => {},
        }
        assert(events@.map_values(|e: JobEvent| e@) =~= exit_events(
            t0,
            ids@.take(i + 1),
            exits@,
        ));
        assert forall|k: int| 0 <= k < ids@.len() && k != i implies table_view(job_table@)[
            #[trigger] ids@[k]] == table_view(before)[ids@[k]] by {
            assert(ids@[k] != id);
        }
        i = i + 1;
    }
    assert(table_view(job_table@) =~= updated(t0, exits@)) by {
        assert forall|id: u32| #[trigger] job_table@.contains_key(id) implies table_view(job_table@)[id]
            == updated(t0, exits@)[id] by {
            assert(ids@.to_set().contains(id));
            let k = choose|k: int| 0 <= k < ids@.len() && ids@[k] == id;
            assert(table_view(job_table@)[ids@[k]] == after_exits(t0[ids@[k]], exits@));
        }
    }
    assert(ids@.take(ids@.len() as int) =~= ids@);
    events
}

/// Refresh the statuses of the jobs from the exits of their processes
/// (process id and exit code): jobs whose process exited become done.
fn update_jobs_status_locked(job_table: &mut BTreeMap<u32, Job>, exits: &[(u32, i32)])
    ensures
        table_view(final(job_table)@) == updated(table_view(old(job_table)@), exits@),
{
    let _events = reap_exited_jobs(job_table, exits);
}

/// Remove the jobs whose process has finished.
pub fn clear_finished_jobs(job_table: &mut BTreeMap<u32, Job>)
    ensures
        table_view(final(job_table)@) == running_only(table_view(old(job_table)@)),
{
    let ghost t0 = table_view(job_table@);
    let ghost dom = job_table@.dom();
    let ids = sorted_ids(job_table);
    let mut i: usize = 0;
    while i < ids.len()
        invariant
            i <= ids@.len(),
            increasing(ids@),
            ids@.to_set() == dom,
            t0 == table_view(old(job_table)@),
            t0.dom() == dom,
            forall|id: u32| #[trigger] job_table@.contains_key(id) ==> dom.contains(id),
            forall|k: int|
                0 <= k < i ==> (job_table@.contains_key(#[trigger] ids@[k]) <==> t0[ids@[k]].pid is Some),
            forall|k: int| i <= k < ids@.len() ==> job_table@.contains_key(#[trigger] ids@[k]),
            forall|id: u32| #[trigger] job_table@.contains_key(id) ==> job_table@[id]@ == t0[id],
        decreases ids@.len() - i,
    {
        let id = ids[i];
        let ghost before = job_table@;
        assert(ids@.to_set().contains(id));
        let finished = match job_table.get(&id) {
            Some(job) => job.pid.is_none(),
            None => false,
        };
        if finished {
            job_table.remove(&id);
        }
        assert forall|k: int| 0 <= k < ids@.len() && k != i implies (job_table@.contains_key(
            #[trigger] ids@[k]) <==> before.contains_key(ids@[k])) by {
            assert(ids@[k] != id);
        }
        i = i + 1;
    }
    assert(table_view(job_table@) =~= running_only(t0)) by {
        assert forall|id: u32| #[trigger] t0.contains_key(id) && t0[id].pid is Some implies job_table@.contains_key(id) by {
            assert(ids@.to_set().contains(id));
            let k = choose|k: int| 0 <= k < ids@.len() && ids@[k] == id;
            assert(job_table@.contains_key(ids@[k]));
        }
        assert forall|id: u32| #[trigger] job_table@.contains_key(id) implies t0[id].pid is Some by {
            assert(ids@.to_set().contains(id));
            let k = choose|k: int| 0 <= k < ids@.len() && ids@[k] == id;
            assert(job_table@.contains_key(ids@[k]));
        }
    }
}


/// `Unknown`, the status shown when the status bytes are not text.
pub open spec fn unknown_text() -> Seq<char> {
    seq!['U', 'n', 'k', 'n', 'o', 'w', 'n']
}

/// The status as shown: the text of the bytes, trimmed, or `Unknown` if
/// they are not UTF-8.
pub open spec fn status_text(status: Seq<u8>) -> Seq<char> {
    if valid_utf8(status) {
        trim(decode_utf8(status))
    } else {
        unknown_text()
    }
}

fn status_string(status: &[u8; 24]) -> (r: String)
    ensures
        r@ == status_text(status@),
{
    match utf8_text(status.as_slice()) {
        Some(text) => trim_string(text),
        None => {
            proof {
                reveal_strlit("Unknown");
                assert("Unknown"@ =~= unknown_text());
            }
            "Unknown".to_string()
        },
    }
}

/// The marker of the job at position `i` of `n`: `+` for the newest job,
/// `-` for the one before it, a space for the others.
pub open spec fn marker_of(i: int, n: int) -> char {
    if i == n - 1 {
        '+'
    } else if n >= 2 && i == n - 2 {
        '-'
    } else {
        ' '
    }
}

fn marker(i: usize, n: usize) -> (c: char)
    requires
        i < n,
    ensures
        c == marker_of(i as int, n as int),
{
    if i == n - 1 {
        '+'
    } else if n >= 2 && i == n - 2 {
        '-'
    } else {
        ' '
    }
}

/// The line shown for a job: `[id]marker status command`.
pub open spec fn job_line_text(id: u32, marker: char, status: Seq<u8>, command: Seq<char>) -> Seq<
    char,
> {
    seq!['['] + decimal(id as nat) + seq![']', marker, ' '] + status_text(status) + seq![' ']
        + command
}

fn job_line(id: u32, mark: char, job: &Job) -> (r: String)
    ensures
        r@ == job_line_text(id, mark, job.status@, job.command@),
{
    let mut line = String::new();
    push_char(&mut line, '[');
    let digits = decimal_string(id);
    push_str(&mut line, digits.as_str());
    push_char(&mut line, ']');
    push_char(&mut line, mark);
    push_char(&mut line, ' ');
    let status = status_string(&job.status);
    push_str(&mut line, status.as_str());
    push_char(&mut line, ' ');
    push_str(&mut line, job.command.as_str());
    assert(line@ =~= job_line_text(id, mark, job.status@, job.command@));
    line
}

/// The lines for the first `k` jobs of `ids`, leaving out the running ones
/// when `finished_only`; markers count all of `ids`.
pub open spec fn job_lines(t: Map<u32, JobSpec>, ids: Seq<u32>, k: int, finished_only: bool) -> Seq<
    Seq<char>,
>
    decreases k,
{
    if k <= 0 {
        Seq::empty()
    } else {
        let rest = job_lines(t, ids, k - 1, finished_only);
        let id = ids[k - 1];
        if !finished_only || t[id].pid is None {
            rest.push(job_line_text(id, marker_of(k - 1, ids.len() as int), t[id].status, t[id].command))
        } else {
            rest
        }
    }
}

fn collect_job_lines(job_table: &BTreeMap<u32, Job>, finished_only: bool) -> (lines: Vec<String>)
    ensures
        string_views(lines@) == job_lines(
            table_view(job_table@),
            sorted_keys(job_table@.dom()),
            job_table@.dom().len() as int,
            finished_only,
        ),
{
    let ids = sorted_ids(job_table);
    let ghost t = table_view(job_table@);
    let n = ids.len();
    let mut lines: Vec<String> = Vec::new();
    let mut i: usize = 0;
    assert(string_views(lines@) =~= Seq::<Seq<char>>::empty());
    while i < n
        invariant
            n == ids@.len(),
            i <= n,
            ids@.to_set() == job_table@.dom(),
            t == table_view(job_table@),
            string_views(lines@) == job_lines(t, ids@, i as int, finished_only),
        decreases n - i,
    {
        let id = ids[i];
        assert(ids@.to_set().contains(id));
        let ghost before = string_views(lines@);
        match job_table.get(&id) {
            Some(job) => {
                if !finished_only || job.pid.is_none() {
                    let line = job_line(id, marker(i, n), job);
                    lines.push(line);
                    assert(string_views(lines@) =~= before.push(line@));
                }
            },
            None => {},
        }
        i = i + 1;
    }
    proof {
        lemma_no_dup_len(ids@, job_table@.dom());
    }
    lines
}

/// A sequence without repetition has as many elements as its set.
proof fn lemma_no_dup_len(s: Seq<u32>, dom: Set<u32>)
    requires
        s.to_set() == dom,
        increasing(s),
    ensures
        dom.len() == s.len(),
{
    assert(s.no_duplicates());
    s.unique_seq_to_set();
}

/// Every job id in the table is at most the last id handed out.
pub open spec fn ids_bounded(t: Map<u32, JobSpec>, recent: u32) -> bool {
    forall|id: u32| #[trigger] t.contains_key(id) ==> id <= recent
}

/// The result of the `jobs` builtin for a table with jobs `t` after the
/// exits: each job's line, in id order, one per line.
pub open spec fn jobs_report(t: Map<u32, JobSpec>) -> Seq<char> {
    join_seq(job_lines(t, sorted_keys(t.dom()), t.dom().len() as int, false), seq!['\n'])
}

/// The `jobs` builtin: refresh the statuses from the exits of background
/// processes (process id and exit code), list every job as
/// `[id]marker status command`, then forget the jobs that are done.
pub fn builtin_jobs(_args: &[String], jobs: &mut JobContext, exits: &[(u32, i32)]) -> (r: BuiltinResult)
    ensures
        final(jobs).recent_job_id == old(jobs).recent_job_id,
        old(jobs).job_table@.dom().len() == 0 ==> {
            &&& table_view(final(jobs).job_table@) == table_view(old(jobs).job_table@)
            &&& match r {
                BuiltinResult::Output(o) => o.stdout is None && o.stderr is None,
                BuiltinResult::Exit => false,
            }
        },
        old(jobs).job_table@.dom().len() > 0 ==> {
            let t1 = updated(table_view(old(jobs).job_table@), exits@);
            &&& table_view(final(jobs).job_table@) == running_only(t1)
            &&& match r {
                BuiltinResult::Output(o) => opt_view(o.stdout) == Some(jobs_report(t1))
                    && o.stderr is None,
                BuiltinResult::Exit => false,
            }
        },
{
    if jobs.job_table.is_empty() {
        assert(jobs.job_table@.dom() =~= Set::<u32>::empty());
        return BuiltinResult::Output(CmdOutput::empty());
    }
    proof {
        if jobs.job_table@.dom().len() == 0 {
            assert(jobs.job_table@.dom() =~= Set::<u32>::empty());
        }
    }
    update_jobs_status_locked(&mut jobs.job_table, exits);
    let ghost t1 = table_view(jobs.job_table@);
    assert(t1.dom() == jobs.job_table@.dom());
    let lines = collect_job_lines(&jobs.job_table, false);
    clear_finished_jobs(&mut jobs.job_table);
    let text = join(lines.as_slice(), "\n");
    proof {
        reveal_strlit("\n");
        assert("\n"@ =~= seq!['\n']);
    }
    BuiltinResult::Output(CmdOutput::out(text))
}

/// For the prompt: refresh the statuses from the exits of background
/// processes (process id and exit code), give the lines of the jobs that
/// are done (markers count every job), then forget those jobs.
pub fn report_finished_jobs(job_table: &mut BTreeMap<u32, Job>, exits: &[(u32, i32)]) -> (lines: Vec<String>)
    ensures
        ({
            let t1 = updated(table_view(old(job_table)@), exits@);
            &&& table_view(final(job_table)@) == running_only(t1)
            &&& string_views(lines@) == job_lines(
                t1,
                sorted_keys(t1.dom()),
                t1.dom().len() as int,
                true,
            )
        }),
{
    update_jobs_status_locked(job_table, exits);
    let ghost t1 = table_view(job_table@);
    assert(t1.dom() == job_table@.dom());
    let lines = collect_job_lines(job_table, true);
    clear_finished_jobs(job_table);
    lines
}

/// The command line recorded for a background job: the program and its
/// arguments, separated by spaces.
pub open spec fn job_command(program: Seq<char>, args: Seq<Seq<char>>) -> Seq<char> {
    program + seq![' '] + join_seq(args, seq![' '])
}

/// Law: the recorded command line is the program followed by a space and
/// then every argument in order, one space between two arguments: without
/// arguments it is the program and a space, with one argument the program,
/// a space and that argument, and each further argument adds a space and
/// itself at the end.
pub proof fn lemma_job_command_lists_every_argument(
    program: Seq<char>,
    args: Seq<Seq<char>>,
    next: Seq<char>,
)
    ensures
        job_command(program, Seq::empty()) == program + seq![' '],
        job_command(program, seq![next]) == program + seq![' '] + next,
        args.len() > 0 ==> job_command(program, args.push(next)) == job_command(program, args)
            + seq![' '] + next,
{
    assert(job_command(program, Seq::empty()) =~= program + seq![' ']);
    assert(job_command(program, seq![next]) =~= program + seq![' '] + next);
    if args.len() > 0 {
        assert(args.push(next).drop_last() =~= args);
        assert(job_command(program, args.push(next)) =~= job_command(program, args) + seq![' ']
            + next);
    }
}

/// Record a newly started background process as the next job, and return
/// the job id it was given.
pub fn register_background_job(jobs: &mut JobContext, program: &str, args: &[String], pid: u32) -> (job_id: u32)
    requires
        old(jobs).recent_job_id < u32::MAX,
    ensures
        job_id == old(jobs).recent_job_id + 1,
        final(jobs).recent_job_id == job_id,
        table_view(final(jobs).job_table@) == table_view(old(jobs).job_table@).insert(
            job_id,
            JobSpec {
                status: padded(running_word()),
                command: job_command(program@, string_views(args@)),
                pid: Some(pid),
            },
        ),
        ids_bounded(table_view(old(jobs).job_table@), old(jobs).recent_job_id) ==> ids_bounded(
            table_view(final(jobs).job_table@),
            final(jobs).recent_job_id,
        ),
{
    let mut command = String::new();
    push_str(&mut command, program);
    push_char(&mut command, ' ');
    let joined = join(args, " ");
    push_str(&mut command, joined.as_str());
    proof {
        reveal_strlit(" ");
        assert(" "@ =~= seq![' ']);
        assert(command@ =~= job_command(program@, string_views(args@)));
    }
    let job_id = jobs.recent_job_id + 1;
    let ghost t0 = table_view(jobs.job_table@);
    jobs.job_table.insert(job_id, Job { status: running_status(), command, pid: Some(pid) });
    jobs.recent_job_id = job_id;
    assert(table_view(jobs.job_table@) =~= t0.insert(
        job_id,
        JobSpec {
            status: padded(running_word()),
            command: job_command(program@, string_views(args@)),
            pid: Some(pid),
        },
    ));
    job_id
}

impl JobContext {
    /// An empty job table; no id handed out yet.
    pub fn new() -> (c: Self)
        ensures
            c.job_table@ == Map::<u32, Job>::empty(),
            c.recent_job_id == 0,
    {
        Self { job_table: BTreeMap::new(), recent_job_id: 0 }
    }
}

/// Law: a new job never takes the id of a job still in the table, as long
/// as every id in the table is at most the last one handed out (which
/// `register_background_job` keeps, and removing jobs cannot break).
pub proof fn lemma_new_job_id_is_fresh(t: Map<u32, JobSpec>, recent: u32)
    requires
        ids_bounded(t, recent),
        recent < u32::MAX,
    ensures
        !t.contains_key((recent + 1) as u32),
{
}

/// Law: reaping and clearing keep every id at most the last one handed out.
pub proof fn lemma_ids_stay_bounded(t: Map<u32, JobSpec>, recent: u32, exits: Seq<(u32, i32)>)
    requires
        ids_bounded(t, recent),
    ensures
        ids_bounded(updated(t, exits), recent),
        ids_bounded(running_only(t), recent),
        ids_bounded(running_only(updated(t, exits)), recent),
{
}

/// Law: after the jobs are listed, no job that is done is left in the
/// table, and every job that is still running is kept, unchanged.
pub proof fn lemma_listing_keeps_running(t: Map<u32, JobSpec>, exits: Seq<(u32, i32)>)
    ensures
        forall|id: u32| #[trigger] running_only(updated(t, exits)).contains_key(id) ==> {
            &&& updated(t, exits)[id].pid is Some
            &&& running_only(updated(t, exits))[id] == t[id]
        },
        forall|id: u32|
            #[trigger] t.contains_key(id) && t[id].pid is Some && exit_code_of(exits, t[id].pid->0)
                is None ==> running_only(updated(t, exits)).contains_key(id),
{
}


/// The notice shown at the prompt when a background job has exited:
/// `[job_id]+ Done`, a tab, and the command.
pub fn done_notice(event: &JobEvent) -> (r: String)
    ensures
        r@ == seq!['['] + decimal(event.job_id as nat) + seq![']', '+', ' ', 'D', 'o', 'n', 'e', '\t']
            + event.command@,
{
    let mut r = String::new();
    push_char(&mut r, '[');
    let id = decimal_string(event.job_id);
    push_str(&mut r, id.as_str());
    proof {
        reveal_strlit("]+ Done\t");
        assert("]+ Done\t"@ =~= seq![']', '+', ' ', 'D', 'o', 'n', 'e', '\t']);
    }
    push_str(&mut r, "]+ Done\t");
    push_str(&mut r, event.command.as_str());
    r
}

} // verus!
