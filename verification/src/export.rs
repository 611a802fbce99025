//! Where exports are written: checks of the output path and the names of
//! the files. What the file system holds is handed in as plain facts.

use vstd::prelude::*;

verus! {

/// Why an export cannot be written where it was asked to.
#[derive(Debug, PartialEq, Eq, Structural, Clone, Copy)]
pub enum ExportError {
    /// The output path of a PerfView export exists and is no directory.
    NotADirectory,
    /// The output path of a PerfView export does not exist.
    DoesNotExist,
    /// The output path of a NetTrace export is a directory.
    OutputIsDirectory,
    /// The directory that would hold a NetTrace export does not exist.
    ParentMissing,
    /// The path that would hold a NetTrace export is no directory.
    ParentNotDirectory,
    /// CPU sampling was on but the trace has no CPU samples.
    CpuKindUnknown,
    /// Off-CPU sampling was on but the trace has no context switch samples.
    CSwitchKindUnknown,
}

/// What the file system says of a path.
#[derive(Debug, PartialEq, Eq, Structural, Clone, Copy)]
pub struct PathState {
    pub exists: bool,
    pub is_dir: bool,
}

/// `s` followed by `t`.
fn joined(s: &str, t: &str) -> (r: String)
    ensures
        r@ == s@ + t@,
{
    let mut r = s.to_owned();
    r.append(t);
    r
}

/// The message that reports `e` for `path`.
pub open spec fn error_message(e: ExportError, path: Seq<char>) -> Seq<char> {
    match e {
        ExportError::NotADirectory => path + " is not a directory."@,
        ExportError::DoesNotExist => path + " does not exist."@,
        ExportError::OutputIsDirectory => "The output path "@ + path
            + " is a directory. Please provide a file path (for example, trace.nettrace)."@,
        ExportError::ParentMissing => "The output directory "@ + path + " does not exist. Please create it and try again."@,
        ExportError::ParentNotDirectory => "The parent path "@ + path
            + " exists but is not a directory. Please provide a path with a valid directory as the parent."@,
        ExportError::CpuKindUnknown => "CPU sample kind should be known."@,
        ExportError::CSwitchKindUnknown => "CSwitch sample kind should be known."@,
    }
}

impl ExportError {
    /// The message that reports this error for `path` (the output path, or
    /// for the parent errors the parent directory).
    pub fn message(&self, path: &str) -> (r: String)
        ensures
            r@ == error_message(*self, path@),
    {
        match self {
            ExportError::NotADirectory => joined(path, " is not a directory."),
            ExportError::DoesNotExist => joined(path, " does not exist."),
            ExportError::OutputIsDirectory => {
                let r = joined("The output path ", path);
                joined(r.as_str(), " is a directory. Please provide a file path (for example, trace.nettrace).")
            },
            ExportError::ParentMissing => {
                let r = joined("The output directory ", path);
                joined(r.as_str(), " does not exist. Please create it and try again.")
            },
            ExportError::ParentNotDirectory => {
                let r = joined("The parent path ", path);
                joined(
                    r.as_str(),
                    " exists but is not a directory. Please provide a path with a valid directory as the parent.",
                )
            },
            ExportError::CpuKindUnknown => "CPU sample kind should be known.".to_owned(),
            ExportError::CSwitchKindUnknown => "CSwitch sample kind should be known.".to_owned(),
        }
    }
}

/// Writes one PerfView XML file per process name and sample kind into an
/// existing directory.
pub struct PerfViewExporter {}

impl PerfViewExporter {
    pub fn new() -> (r: Self) {
        PerfViewExporter {  }
    }

    /// The output path must be an existing directory.
    pub fn validate(&mut self, output: PathState) -> (r: Result<(), ExportError>)
        ensures
            output.exists && !output.is_dir ==> r == Err::<(), ExportError>(ExportError::NotADirectory),
            !output.exists ==> r == Err::<(), ExportError>(ExportError::DoesNotExist),
            output.exists && output.is_dir ==> r is Ok,
    {
        if output.exists && !output.is_dir {
            Err(ExportError::NotADirectory)
        } else if !output.exists {
            Err(ExportError::DoesNotExist)
        } else {
            Ok(())
        }
    }

    /// The sample kind to export: the one the trace has, or 0 when it has
    /// none and that kind of sampling was off; `missing` when it was on.
    pub fn sample_kind(found: Option<u16>, enabled: bool, missing: ExportError) -> (r: Result<u16, ExportError>)
        ensures
            found matches Some(k) ==> r == Ok::<u16, ExportError>(k),
            found is None && enabled ==> r == Err::<u16, ExportError>(missing),
            found is None && !enabled ==> r == Ok::<u16, ExportError>(0),
    {
        match found {
            Some(k) => Ok(k),
            None => if enabled {
                Err(missing)
            } else {
                Ok(0)
            },
        }
    }

    /// A process name that can stand in a file name: `:` and `/` become
    /// `_`.
    pub fn file_comm(comm: &str) -> (r: String)
        ensures
            r@ == file_comm_chars(comm@),
    {
        let n = comm.unicode_len();
        let mut out = "".to_owned();
        let mut i: usize = 0;
        proof {
            reveal_strlit("");
            reveal_strlit("_");
        }
        while i < n
            invariant
                i <= n,
                n == comm@.len(),
                out@ == file_comm_chars(comm@.take(i as int)),
            decreases n - i,
        {
            let c = comm.get_char(i);
            let ghost before = out@;
            if c == ':' || c == '/' {
                out.append("_");
                proof {
                    reveal_strlit("_");
                }
                assert("_"@ =~= seq!['_']);
            } else {
                let one = comm.substring_char(i, i + 1);
                assert(one@ =~= seq![c]);
                out.append(one);
            }
            proof {
                let t = comm@.take(i + 1);
                let mapped = if c == ':' || c == '/' { '_' } else { c };
                assert(out@ =~= before.push(mapped));
                assert(file_comm_chars(t) =~= file_comm_chars(comm@.take(i as int)).push(mapped));
            }
            i = i + 1;
        }
        assert(comm@.take(n as int) =~= comm@);
        out
    }

    /// The file of the samples of one kind: `t.<comm>.` for a process name,
    /// `t.Unknown.<pid>.` for an unnamed process, then `CPU` or `CSwitch`,
    /// then `.PerfView.xml`, in directory `dir`.
    pub fn file_path(dir: &str, comm: Option<&str>, pid: u32, cswitch: bool) -> (r: String)
        ensures
            r@ == perf_view_path(dir@, comm_view(comm), pid as nat, cswitch),
    {
        let mut r = joined(dir, "/t.");
        match comm {
            Some(c) => {
                r.append(c);
            },
            None => {
                r.append("Unknown.");
                let digits = decimal_string(pid);
                r.append(digits.as_str());
            },
        }
        if cswitch {
            r.append(".CSwitch.PerfView.xml");
        } else {
            r.append(".CPU.PerfView.xml");
        }
        r
    }
}

/// How a group of processes of a trace is named.
pub enum GroupName {
    /// Processes without a name: each one is exported on its own, by pid.
    Unnamed,
    /// A name that the trace's string table does not hold.
    Unknown,
    /// The processes' name.
    Named(String),
}

/// Processes exported together, under one name.
pub struct ProcessGroup {
    pub name: GroupName,
    pub pids: Vec<u32>,
}

/// One file to write: which processes' samples of which kind go there,
/// and how the samples are described.
pub struct ExportJob {
    pub path: String,
    pub pids: Vec<u32>,
    pub kind: u16,
    pub description: String,
}

/// Mathematical form of an `ExportJob`.
pub struct JobView {
    pub path: Seq<char>,
    pub pids: Seq<u32>,
    pub kind: u16,
    pub description: Seq<char>,
}

impl View for ExportJob {
    type V = JobView;

    open spec fn view(&self) -> JobView {
        JobView { path: self.path@, pids: self.pids@, kind: self.kind, description: self.description@ }
    }
}

/// The views of a sequence of jobs.
pub open spec fn jobs_view(jobs: Seq<ExportJob>) -> Seq<JobView> {
    jobs.map_values(|j: ExportJob| j@)
}

/// The files of one set of processes: CPU samples when on-CPU sampling was
/// on, then wait time when off-CPU sampling was on.
pub open spec fn kind_jobs(
    dir: Seq<char>,
    comm: Option<Seq<char>>,
    pid: u32,
    pids: Seq<u32>,
    on_cpu: bool,
    off_cpu: bool,
    cpu: u16,
    cswitch: u16,
) -> Seq<JobView> {
    (if on_cpu {
        seq![JobView { path: perf_view_path(dir, comm, pid as nat, false), pids, kind: cpu, description: "CPU Samples"@ }]
    } else {
        Seq::empty()
    }) + (if off_cpu {
        seq![JobView { path: perf_view_path(dir, comm, pid as nat, true), pids, kind: cswitch, description: "Wait Time"@ }]
    } else {
        Seq::empty()
    })
}

/// The files of the first `n` unnamed processes, one process at a time.
pub open spec fn unnamed_jobs(
    dir: Seq<char>,
    pids: Seq<u32>,
    n: int,
    on_cpu: bool,
    off_cpu: bool,
    cpu: u16,
    cswitch: u16,
) -> Seq<JobView>
    decreases n,
{
    if n <= 0 {
        Seq::empty()
    } else {
        unnamed_jobs(dir, pids, n - 1, on_cpu, off_cpu, cpu, cswitch) + kind_jobs(
            dir,
            None,
            pids[n - 1],
            seq![pids[n - 1]],
            on_cpu,
            off_cpu,
            cpu,
            cswitch,
        )
    }
}

/// The files of one group: one pair per unnamed process, or one pair for
/// all the processes of a name (`Unknown` when the name is not known; `:`
/// and `/` in a name become `_`).
pub open spec fn group_jobs(
    dir: Seq<char>,
    g: ProcessGroup,
    on_cpu: bool,
    off_cpu: bool,
    cpu: u16,
    cswitch: u16,
) -> Seq<JobView> {
    match g.name {
        GroupName::Unnamed => unnamed_jobs(dir, g.pids@, g.pids@.len() as int, on_cpu, off_cpu, cpu, cswitch),
        GroupName::Unknown => kind_jobs(dir, Some("Unknown"@), 0, g.pids@, on_cpu, off_cpu, cpu, cswitch),
        GroupName::Named(c) => kind_jobs(dir, Some(file_comm_chars(c@)), 0, g.pids@, on_cpu, off_cpu, cpu, cswitch),
    }
}

/// The files of the first `n` groups, group by group.
pub open spec fn plan_jobs(
    dir: Seq<char>,
    gs: Seq<ProcessGroup>,
    n: int,
    on_cpu: bool,
    off_cpu: bool,
    cpu: u16,
    cswitch: u16,
) -> Seq<JobView>
    decreases n,
{
    if n <= 0 {
        Seq::empty()
    } else {
        plan_jobs(dir, gs, n - 1, on_cpu, off_cpu, cpu, cswitch) + group_jobs(dir, gs[n - 1], on_cpu, off_cpu, cpu, cswitch)
    }
}

/// The sample kind in use: the one found, or 0.
pub open spec fn kind_or_zero(found: Option<u16>) -> u16 {
    match found {
        Some(k) => k,
        None => 0,
    }
}

/// Appends the jobs of one set of processes.
fn push_kind_jobs(
    jobs: &mut Vec<ExportJob>,
    dir: &str,
    comm: Option<&str>,
    pid: u32,
    pids: &Vec<u32>,
    on_cpu: bool,
    off_cpu: bool,
    cpu: u16,
    cswitch: u16,
)
    ensures
        jobs_view(final(jobs)@) == jobs_view(old(jobs)@) + kind_jobs(
            dir@,
            comm_view(comm),
            pid,
            pids@,
            on_cpu,
            off_cpu,
            cpu,
            cswitch,
        ),
{
    let ghost before = jobs_view(jobs@);
    proof {
        reveal_strlit("CPU Samples");
        reveal_strlit("Wait Time");
    }
    if on_cpu {
        let job = ExportJob {
            path: PerfViewExporter::file_path(dir, comm, pid, false),
            pids: copy_pids(pids),
            kind: cpu,
            description: "CPU Samples".to_owned(),
        };
        jobs.push(job);
    }
    let ghost mid = jobs_view(jobs@);
    if off_cpu {
        let job = ExportJob {
            path: PerfViewExporter::file_path(dir, comm, pid, true),
            pids: copy_pids(pids),
            kind: cswitch,
            description: "Wait Time".to_owned(),
        };
        jobs.push(job);
    }
    assert(jobs_view(jobs@) =~= before + kind_jobs(dir@, comm_view(comm), pid, pids@, on_cpu, off_cpu, cpu, cswitch));
}

/// A copy of `pids`.
fn copy_pids(pids: &Vec<u32>) -> (r: Vec<u32>)
    ensures
        r@ == pids@,
{
    let mut r: Vec<u32> = Vec::new();
    let mut i: usize = 0;
    while i < pids.len()
        invariant
            i <= pids@.len(),
            r@ == pids@.take(i as int),
        decreases pids.len() - i,
    {
        r.push(pids[i]);
        i = i + 1;
        assert(r@ =~= pids@.take(i as int));
    }
    assert(pids@.take(i as int) =~= pids@);
    r
}

impl PerfViewExporter {
    /// The files of a PerfView export into `dir`: for each group in turn,
    /// CPU samples (when on-CPU sampling was on) and wait time (when
    /// off-CPU sampling was on), per process for unnamed processes and per
    /// name otherwise. Fails when a kind of sampling was on and the trace
    /// has no samples of that kind, CPU first.
    pub fn export_plan(
        dir: &str,
        groups: &Vec<ProcessGroup>,
        on_cpu: bool,
        off_cpu: bool,
        cpu_found: Option<u16>,
        cswitch_found: Option<u16>,
    ) -> (r: Result<Vec<ExportJob>, ExportError>)
        ensures
            cpu_found is None && on_cpu ==> r == Err::<Vec<ExportJob>, ExportError>(ExportError::CpuKindUnknown),
            !(cpu_found is None && on_cpu) && cswitch_found is None && off_cpu ==> r == Err::<
                Vec<ExportJob>,
                ExportError,
            >(ExportError::CSwitchKindUnknown),
            !(cpu_found is None && on_cpu) && !(cswitch_found is None && off_cpu) ==> (r matches Ok(jobs) && jobs_view(
                jobs@,
            ) == plan_jobs(
                dir@,
                groups@,
                groups@.len() as int,
                on_cpu,
                off_cpu,
                kind_or_zero(cpu_found),
                kind_or_zero(cswitch_found),
            )),
    {
        let cpu = match Self::sample_kind(cpu_found, on_cpu, ExportError::CpuKindUnknown) {
            Ok(k) => k,
            Err(e) => return Err(e),
        };
        let cswitch = match Self::sample_kind(cswitch_found, off_cpu, ExportError::CSwitchKindUnknown) {
            Ok(k) => k,
            Err(e) => return Err(e),
        };
        let ghost gs = groups@;
        let mut jobs: Vec<ExportJob> = Vec::new();
        let mut g: usize = 0;
        while g < groups.len()
            invariant
                g <= gs.len(),
                gs == groups@,
                cpu == kind_or_zero(cpu_found),
                cswitch == kind_or_zero(cswitch_found),
                jobs_view(jobs@) == plan_jobs(dir@, gs, g as int, on_cpu, off_cpu, cpu, cswitch),
            decreases gs.len() - g,
        {
            let group = &groups[g];
            let ghost before = jobs_view(jobs@);
            match &group.name {
                GroupName::Unnamed => {
                    let pids = &group.pids;
                    let mut i: usize = 0;
                    while i < pids.len()
                        invariant
                            i <= pids@.len(),
                            jobs_view(jobs@) == before + unnamed_jobs(dir@, pids@, i as int, on_cpu, off_cpu, cpu, cswitch),
                        decreases pids.len() - i,
                    {
                        let pid = pids[i];
                        let single = vec![pid];
                        assert(single@ =~= seq![pids@[i as int]]);
                        push_kind_jobs(&mut jobs, dir, None, pid, &single, on_cpu, off_cpu, cpu, cswitch);
                        i = i + 1;
                    }
                },
                GroupName::Unknown => {
                    proof {
                        reveal_strlit("Unknown");
                    }
                    push_kind_jobs(&mut jobs, dir, Some("Unknown"), 0, &group.pids, on_cpu, off_cpu, cpu, cswitch);
                },
                GroupName::Named(c) => {
                    let fc = Self::file_comm(c.as_str());
                    push_kind_jobs(&mut jobs, dir, Some(fc.as_str()), 0, &group.pids, on_cpu, off_cpu, cpu, cswitch);
                },
            }
            g = g + 1;
        }
        Ok(jobs)
    }
}

/// The name of a process, if it has one.
pub open spec fn comm_view(comm: Option<&str>) -> Option<Seq<char>> {
    match comm {
        Some(c) => Some(c@),
        None => None,
    }
}

/// `s` with `:` and `/` replaced by `_`.
pub open spec fn file_comm_chars(s: Seq<char>) -> Seq<char> {
    Seq::new(s.len(), |i: int| if s[i] == ':' || s[i] == '/' { '_' } else { s[i] })
}

/// The path of a PerfView file.
pub open spec fn perf_view_path(dir: Seq<char>, comm: Option<Seq<char>>, pid: nat, cswitch: bool) -> Seq<char> {
    dir + "/t."@ + match comm {
        Some(c) => c,
        None => "Unknown."@ + decimal(pid),
    } + if cswitch {
        ".CSwitch.PerfView.xml"@
    } else {
        ".CPU.PerfView.xml"@
    }
}

/// The digit character of `d`.
pub open spec fn digit_char(d: nat) -> char {
    (48 + d) as char
}

/// The decimal digits of `n`.
pub open spec fn decimal(n: nat) -> Seq<char>
    decreases n,
{
    if n < 10 {
        seq![digit_char(n)]
    } else {
        decimal(n / 10).push(digit_char(n % 10))
    }
}

/// The number that the decimal digits `s` spell, most significant first.
pub open spec fn decimal_value(s: Seq<char>) -> int
    decreases s.len(),
{
    if s.len() == 0 {
        0
    } else {
        10 * decimal_value(s.drop_last()) + (s.last() as int - 48)
    }
}

/// `c` is one of the characters `0` to `9`.
pub open spec fn is_decimal_digit(c: char) -> bool {
    '0' <= c <= '9'
}

/// `decimal(n)` is the base-10 representation of `n`: its characters are
/// digits, they spell `n`, and it has no leading zero (only 0 itself is
/// written with a `0` first).
pub proof fn lemma_decimal_spells(n: nat)
    ensures
        decimal_value(decimal(n)) == n,
        decimal(n).len() >= 1,
        forall|i: int| 0 <= i < decimal(n).len() ==> is_decimal_digit(#[trigger] decimal(n)[i]),
        n > 0 ==> decimal(n)[0] != '0',
    decreases n,
{
    if n >= 10 {
        lemma_decimal_spells(n / 10);
        let prev = decimal(n / 10);
        let d = (n % 10) as nat;
        assert(decimal(n) == prev.push(digit_char(d)));
        assert(decimal(n).drop_last() =~= prev);
        assert(digit_char(d) as int == 48 + d);
        assert(n == 10 * (n / 10) + d) by (nonlinear_arith)
            requires
                d == n % 10,
        ;
        assert(decimal(n).last() == digit_char(d));
        assert(decimal_value(decimal(n)) == 10 * decimal_value(prev) + d);
        assert forall|i: int| 0 <= i < decimal(n).len() implies is_decimal_digit(#[trigger] decimal(n)[i]) by {
            if i < prev.len() {
                assert(decimal(n)[i] == prev[i]);
            }
        }
        assert(decimal(n)[0] == prev[0]);
    } else {
        assert(digit_char(n) as int == 48 + n);
        assert(decimal(n).drop_last() =~= Seq::<char>::empty());
        assert(decimal(n).last() == digit_char(n));
        assert(decimal_value(decimal(n)) == 10 * decimal_value(Seq::<char>::empty()) + n);
    }
}

fn digit_str(d: u32) -> (r: &'static str)
    requires
        d < 10,
    ensures
        r@ == seq![digit_char(d as nat)],
{
    proof {
        reveal_strlit("0");
        reveal_strlit("1");
        reveal_strlit("2");
        reveal_strlit("3");
        reveal_strlit("4");
        reveal_strlit("5");
        reveal_strlit("6");
        reveal_strlit("7");
        reveal_strlit("8");
        reveal_strlit("9");
    }
    match d {
        0 => "0",
        1 => "1",
        2 => "2",
        3 => "3",
        4 => "4",
        5 => "5",
        6 => "6",
        7 => "7",
        8 => "8",
        _ => "9",
    }
}

/// The decimal digits of `n`, as `{}` formats it.
pub fn decimal_string(n: u32) -> (r: String)
    ensures
        r@ == decimal(n as nat),
    decreases n,
{
    if n < 10 {
        digit_str(n).to_owned()
    } else {
        let mut r = decimal_string(n / 10);
        r.append(digit_str(n % 10));
        r
    }
}

/// Writes one NetTrace file.
pub struct NetTraceExporter {
    output_path: String,
}

/// The file name of a NetTrace export written into a directory.
pub open spec fn default_trace_name() -> Seq<char> {
    "trace.nettrace"@
}

/// `name` joined to `base` as a path joins a relative name: nothing in
/// between when `base` is empty or ends with `/`, else one `/`.
pub open spec fn path_join(base: Seq<char>, name: Seq<char>) -> Seq<char> {
    if base.len() == 0 || base.last() == '/' {
        base + name
    } else {
        base + seq!['/'] + name
    }
}

impl NetTraceExporter {
    pub closed spec fn spec_output_path(&self) -> Seq<char> {
        self.output_path@
    }

    pub fn new() -> (r: Self)
        ensures
            r.spec_output_path() == Seq::<char>::empty(),
    {
        proof {
            reveal_strlit("");
        }
        NetTraceExporter { output_path: "".to_owned() }
    }

    /// The path the export goes to.
    pub fn output_path(&self) -> (r: &str)
        ensures
            r@ == self.spec_output_path(),
    {
        self.output_path.as_str()
    }

    /// Takes `path` as the output path; an existing directory gets the
    /// default file name inside it.
    pub fn resolve_output_path(&mut self, path: &str, state: PathState) -> (r: &str)
        ensures
            state.exists && state.is_dir ==> final(self).spec_output_path() == path_join(path@, default_trace_name()),
            !(state.exists && state.is_dir) ==> final(self).spec_output_path() == path@,
            r@ == final(self).spec_output_path(),
    {
        proof {
            reveal_strlit("trace.nettrace");
            reveal_strlit("/");
        }
        if state.exists && state.is_dir {
            let n = path.unicode_len();
            if n == 0 || path.get_char(n - 1) == '/' {
                self.output_path = joined(path, "trace.nettrace");
            } else {
                let with_sep = joined(path, "/");
                self.output_path = joined(with_sep.as_str(), "trace.nettrace");
            }
        } else {
            self.output_path = path.to_owned();
        }
        self.output_path.as_str()
    }

    /// The output path must not be a directory, and its parent, when it
    /// names one, must be an existing directory.
    pub fn check_output_path(output: PathState, parent: Option<PathState>) -> (r: Result<(), ExportError>)
        ensures
            output.exists && output.is_dir ==> r == Err::<(), ExportError>(ExportError::OutputIsDirectory),
            !(output.exists && output.is_dir) ==> match parent {
                Some(p) => if !p.exists {
                    r == Err::<(), ExportError>(ExportError::ParentMissing)
                } else if !p.is_dir {
                    r == Err::<(), ExportError>(ExportError::ParentNotDirectory)
                } else {
                    r is Ok
                },
                None => r is Ok,
            },
    {
        if output.exists && output.is_dir {
            return Err(ExportError::OutputIsDirectory);
        }
        match parent {
            Some(p) => if !p.exists {
                Err(ExportError::ParentMissing)
            } else if !p.is_dir {
                Err(ExportError::ParentNotDirectory)
            } else {
                Ok(())
            },
            None => Ok(()),
        }
    }
}

} // verus!
