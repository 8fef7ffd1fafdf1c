//! The registry of background transcription jobs.  Each job carries a
//! lifecycle — created running, progressed per track, ended done or
//! failed exactly once, never both — and a log that accumulates
//! progress lines.  The registry itself is plain data; the shell
//! serializes access to it behind its lock.

use vstd::prelude::*;

verus! {

use vstd::string::StringExecFns;
use crate::strutil::push_char;

#[derive(Clone, Copy, PartialEq, Eq, Structural, Debug)]
pub enum JobState {
    Running,
    Done,
    Failed,
}

/// The status an external caller polls.
pub struct JobStatus {
    pub state: JobState,
    pub completed: usize,
    pub total: usize,
    pub output_path: Option<String>,
    pub error: Option<String>,
    pub log: Option<String>,
}

pub struct JobStatusV {
    pub state: JobState,
    pub completed: int,
    pub total: int,
    pub output_path: Option<Seq<char>>,
    pub error: Option<Seq<char>>,
    pub log: Option<Seq<char>>,
}

impl View for JobStatus {
    type V = JobStatusV;

    open spec fn view(&self) -> JobStatusV {
        JobStatusV {
            state: self.state,
            completed: self.completed as int,
            total: self.total as int,
            output_path: match self.output_path {
                Some(ref p) => Some(p@),
                None => None,
            },
            error: match self.error {
                Some(ref e) => Some(e@),
                None => None,
            },
            log: match self.log {
                Some(ref l) => Some(l@),
                None => None,
            },
        }
    }
}

impl DeepView for JobStatus {
    type V = JobStatusV;

    open spec fn deep_view(&self) -> JobStatusV {
        self.view()
    }
}

/// The lifecycle invariant: a running job has produced neither an
/// output nor an error; a finished one carries its output and no
/// error; a failed one carries its error and no output.
pub open spec fn job_wf(s: JobStatusV) -> bool {
    &&& s.state == JobState::Running ==> s.output_path is None && s.error is None
    &&& s.state == JobState::Done ==> s.output_path is Some && s.error is None
    &&& s.state == JobState::Failed ==> s.error is Some && s.output_path is None
}

/// A fresh job: running, nothing counted, an empty log.
pub open spec fn fresh_job() -> JobStatusV {
    JobStatusV {
        state: JobState::Running,
        completed: 0,
        total: 0,
        output_path: None,
        error: None,
        log: Some(Seq::empty()),
    }
}

/// The process-wide map of job id to status.  Ids are handed out
/// densely in creation order, so an id is known exactly when it is
/// below the number of jobs ever created; jobs are never evicted.
pub struct JobRegistry {
    jobs: Vec<JobStatus>,
}

impl View for JobRegistry {
    type V = Seq<JobStatusV>;

    closed spec fn view(&self) -> Seq<JobStatusV> {
        self.jobs.deep_view()
    }
}

impl JobRegistry {
    pub open spec fn wf(&self) -> bool {
        forall|i: int| 0 <= i < self@.len() ==> job_wf(#[trigger] self@[i])
    }

    pub fn new() -> (r: JobRegistry)
        ensures
            r@ == Seq::<JobStatusV>::empty(),
            r.wf(),
    {
        let r = JobRegistry { jobs: Vec::new() };
        proof {
            assert(r@ =~= Seq::<JobStatusV>::empty());
        }
        r
    }

    /// Create a new job: its id is fresh, and it starts running with
    /// zero counts and an empty log.
    pub fn create(&mut self) -> (id: usize)
        requires
            old(self).wf(),
        ensures
            id == old(self)@.len(),
            final(self)@ == old(self)@.push(fresh_job()),
            final(self).wf(),
    {
        let id = self.jobs.len();
        let st = JobStatus {
            state: JobState::Running,
            completed: 0,
            total: 0,
            output_path: None,
            error: None,
            log: Some(String::new()),
        };
        self.jobs.push(st);
        proof {
            assert(self@ =~= old(self)@.push(fresh_job()));
        }
        id
    }

    /// A snapshot of one job's status, or nothing for an unknown id.
    pub fn get(&self, id: usize) -> (r: Option<JobStatus>)
        ensures
            r is Some <==> id < self@.len(),
            r matches Some(st) ==> st@ == self@[id as int],
    {
        if id < self.jobs.len() {
            let j = &self.jobs[id];
            let st = JobStatus {
                state: j.state,
                completed: j.completed,
                total: j.total,
                output_path: match &j.output_path {
                    Some(p) => Some(p.clone()),
                    None => None,
                },
                error: match &j.error {
                    Some(e) => Some(e.clone()),
                    None => None,
                },
                log: match &j.log {
                    Some(l) => Some(l.clone()),
                    None => None,
                },
            };
            Some(st)
        } else {
            None
        }
    }

    /// Append one line and a newline to a job's log; a late call for
    /// an unknown id changes nothing.
    pub fn append_log(&mut self, id: usize, line: &str)
        requires
            old(self).wf(),
        ensures
            id < old(self)@.len() ==> final(self)@ == old(self)@.update(
                id as int,
                JobStatusV {
                    log: Some(
                        (match old(self)@[id as int].log {
                            Some(l) => l,
                            None => Seq::empty(),
                        }) + line@ + seq!['\n'],
                    ),
                    ..old(self)@[id as int]
                },
            ),
            id >= old(self)@.len() ==> final(self)@ == old(self)@,
            final(self).wf(),
    {
        if id >= self.jobs.len() {
            proof {
                assert(self@ =~= old(self)@);
            }
            return;
        }
        let mut st = self.jobs.remove(id);
        let ghost sv = st@;
        proof {
            assert(sv == old(self)@[id as int]);
        }
        let log = match st.log {
            Some(l) => l,
            None => String::new(),
        };
        let mut log = log.concat(line);
        push_char(&mut log, '\n');
        st.log = Some(log);
        self.jobs.insert(id, st);
        proof {
            assert(st@.log matches Some(l) && l =~= (match sv.log {
                Some(l0) => l0,
                None => Seq::empty(),
            }) + line@ + seq!['\n']);
            assert(self@ =~= old(self)@.update(id as int, st@));
        }
    }

    /// Record progress on a running job: the track total once known,
    /// and the number of tracks completed so far, which never moves
    /// backwards.
    pub fn update_progress(&mut self, id: usize, completed: usize, total: usize)
        requires
            old(self).wf(),
            id < old(self)@.len() ==> {
                &&& old(self)@[id as int].state == JobState::Running
                &&& completed >= old(self)@[id as int].completed
            },
        ensures
            id < old(self)@.len() ==> final(self)@ == old(self)@.update(
                id as int,
                JobStatusV {
                    completed: completed as int,
                    total: total as int,
                    ..old(self)@[id as int]
                },
            ),
            id >= old(self)@.len() ==> final(self)@ == old(self)@,
            final(self).wf(),
    {
        if id >= self.jobs.len() {
            proof {
                assert(self@ =~= old(self)@);
            }
            return;
        }
        let mut st = self.jobs.remove(id);
        st.completed = completed;
        st.total = total;
        self.jobs.insert(id, st);
        proof {
            assert(self@ =~= old(self)@.update(id as int, st@));
        }
    }

    /// Transition a running job to done, with its output path;
    /// completion snaps to the total.  Nothing happens for an unknown
    /// id or a job already terminal.
    pub fn mark_done(&mut self, id: usize, output_path: String)
        requires
            old(self).wf(),
        ensures
            id < old(self)@.len() && old(self)@[id as int].state == JobState::Running
                ==> final(self)@ == old(self)@.update(
                id as int,
                JobStatusV {
                    state: JobState::Done,
                    completed: old(self)@[id as int].total,
                    output_path: Some(output_path@),
                    ..old(self)@[id as int]
                },
            ),
            !(id < old(self)@.len() && old(self)@[id as int].state == JobState::Running)
                ==> final(self)@ == old(self)@,
            final(self).wf(),
    {
        if id >= self.jobs.len() {
            proof {
                assert(self@ =~= old(self)@);
            }
            return;
        }
        let is_running = match self.jobs[id].state {
            JobState::Running => true,
            _ => false,
        };
        if !is_running {
            proof {
                assert(self@ =~= old(self)@);
            }
            return;
        }
        let mut st = self.jobs.remove(id);
        st.state = JobState::Done;
        st.completed = st.total;
        st.output_path = Some(output_path);
        self.jobs.insert(id, st);
        proof {
            assert(self@ =~= old(self)@.update(id as int, st@));
        }
    }

    /// Transition a running job to failed, with its error message.
    /// Nothing happens for an unknown id or a job already terminal.
    pub fn mark_failed(&mut self, id: usize, error: String)
        requires
            old(self).wf(),
        ensures
            id < old(self)@.len() && old(self)@[id as int].state == JobState::Running
                ==> final(self)@ == old(self)@.update(
                id as int,
                JobStatusV {
                    state: JobState::Failed,
                    error: Some(error@),
                    ..old(self)@[id as int]
                },
            ),
            !(id < old(self)@.len() && old(self)@[id as int].state == JobState::Running)
                ==> final(self)@ == old(self)@,
            final(self).wf(),
    {
        if id >= self.jobs.len() {
            proof {
                assert(self@ =~= old(self)@);
            }
            return;
        }
        let is_running = match self.jobs[id].state {
            JobState::Running => true,
            _ => false,
        };
        if !is_running {
            proof {
                assert(self@ =~= old(self)@);
            }
            return;
        }
        let mut st = self.jobs.remove(id);
        st.state = JobState::Failed;
        st.error = Some(error);
        self.jobs.insert(id, st);
        proof {
            assert(self@ =~= old(self)@.update(id as int, st@));
        }
    }

    /// The number of jobs ever created.
    pub fn len(&self) -> (n: usize)
        ensures
            n == self@.len(),
    {
        self.jobs.len()
    }
}

} // verus!
