use one_collect::export::{
    decimal_string, ExportError, ExportJob, GroupName, NetTraceExporter, PathState, PerfViewExporter, ProcessGroup,
};

const DIR: PathState = PathState { exists: true, is_dir: true };
const FILE: PathState = PathState { exists: true, is_dir: false };
const MISSING: PathState = PathState { exists: false, is_dir: false };

#[test]
fn perf_view_validate() {
    let mut e = PerfViewExporter::new();
    assert_eq!(Ok(()), e.validate(DIR));
    assert_eq!(Err(ExportError::NotADirectory), e.validate(FILE));
    assert_eq!(Err(ExportError::DoesNotExist), e.validate(MISSING));
}

#[test]
fn perf_view_sample_kinds() {
    assert_eq!(Ok(4), PerfViewExporter::sample_kind(Some(4), true, ExportError::CpuKindUnknown));
    assert_eq!(Ok(0), PerfViewExporter::sample_kind(None, false, ExportError::CpuKindUnknown));
    assert_eq!(
        Err(ExportError::CSwitchKindUnknown),
        PerfViewExporter::sample_kind(None, true, ExportError::CSwitchKindUnknown)
    );
}

#[test]
fn perf_view_file_names() {
    assert_eq!("a_b_c", PerfViewExporter::file_comm("a:b/c"));
    assert_eq!("dotnet", PerfViewExporter::file_comm("dotnet"));
    assert_eq!("/out/t.bash.CPU.PerfView.xml", PerfViewExporter::file_path("/out", Some("bash"), 0, false));
    assert_eq!("/out/t.Unknown.1234.CSwitch.PerfView.xml", PerfViewExporter::file_path("/out", None, 1234, true));
    assert_eq!("0", decimal_string(0));
    assert_eq!("4294967295", decimal_string(u32::MAX));
}

#[test]
fn nettrace_directory_gets_default_file_name() {
    let mut e = NetTraceExporter::new();
    assert_eq!("", e.output_path());
    assert_eq!("out.data/trace.nettrace", e.resolve_output_path("out.data", DIR));
    assert_eq!("out/trace.nettrace", e.resolve_output_path("out/", DIR));
    assert_eq!("trace.nettrace", e.resolve_output_path("", DIR));
    assert_eq!("x.nettrace", e.resolve_output_path("x.nettrace", MISSING));
    assert_eq!("x.nettrace", e.output_path());
}

#[test]
fn nettrace_output_checks() {
    assert_eq!(Err(ExportError::OutputIsDirectory), NetTraceExporter::check_output_path(DIR, None));
    assert_eq!(Err(ExportError::ParentMissing), NetTraceExporter::check_output_path(MISSING, Some(MISSING)));
    assert_eq!(Err(ExportError::ParentNotDirectory), NetTraceExporter::check_output_path(MISSING, Some(FILE)));
    assert_eq!(Ok(()), NetTraceExporter::check_output_path(FILE, Some(DIR)));
    assert_eq!(Ok(()), NetTraceExporter::check_output_path(MISSING, None));
}

#[test]
fn export_error_messages() {
    assert!(ExportError::ParentMissing.message("/tmp/x").contains("Please create it and try again"));
    assert_eq!("/d is not a directory.", ExportError::NotADirectory.message("/d"));
    assert_eq!("/d does not exist.", ExportError::DoesNotExist.message("/d"));
    assert_eq!(
        "The output path /d is a directory. Please provide a file path (for example, trace.nettrace).",
        ExportError::OutputIsDirectory.message("/d")
    );
    assert_eq!("CPU sample kind should be known.", ExportError::CpuKindUnknown.message(""));
}

fn job(j: &ExportJob) -> (String, Vec<u32>, u16, String) {
    (j.path.clone(), j.pids.clone(), j.kind, j.description.clone())
}

#[test]
fn perf_view_export_plan() {
    let groups = vec![
        ProcessGroup { name: GroupName::Unnamed, pids: vec![7, 9] },
        ProcessGroup { name: GroupName::Named("dotnet:w/1".to_string()), pids: vec![3, 4] },
        ProcessGroup { name: GroupName::Unknown, pids: vec![5] },
    ];
    let jobs = PerfViewExporter::export_plan("/out", &groups, true, true, Some(2), Some(5)).unwrap();
    let got: Vec<_> = jobs.iter().map(job).collect();
    let cpu = "CPU Samples".to_string();
    let wait = "Wait Time".to_string();
    assert_eq!(
        vec![
            ("/out/t.Unknown.7.CPU.PerfView.xml".to_string(), vec![7], 2, cpu.clone()),
            ("/out/t.Unknown.7.CSwitch.PerfView.xml".to_string(), vec![7], 5, wait.clone()),
            ("/out/t.Unknown.9.CPU.PerfView.xml".to_string(), vec![9], 2, cpu.clone()),
            ("/out/t.Unknown.9.CSwitch.PerfView.xml".to_string(), vec![9], 5, wait.clone()),
            ("/out/t.dotnet_w_1.CPU.PerfView.xml".to_string(), vec![3, 4], 2, cpu.clone()),
            ("/out/t.dotnet_w_1.CSwitch.PerfView.xml".to_string(), vec![3, 4], 5, wait.clone()),
            ("/out/t.Unknown.CPU.PerfView.xml".to_string(), vec![5], 2, cpu.clone()),
            ("/out/t.Unknown.CSwitch.PerfView.xml".to_string(), vec![5], 5, wait.clone()),
        ],
        got
    );
}

#[test]
fn perf_view_export_plan_kinds() {
    let groups = vec![ProcessGroup { name: GroupName::Named("app".to_string()), pids: vec![1] }];
    let jobs = PerfViewExporter::export_plan("d", &groups, false, true, None, Some(3)).unwrap();
    let got: Vec<_> = jobs.iter().map(job).collect();
    assert_eq!(vec![("d/t.app.CSwitch.PerfView.xml".to_string(), vec![1], 3, "Wait Time".to_string())], got);
    assert!(PerfViewExporter::export_plan("d", &groups, false, false, None, None).unwrap().is_empty());
    assert!(matches!(
        PerfViewExporter::export_plan("d", &groups, true, true, None, None),
        Err(ExportError::CpuKindUnknown)
    ));
    assert!(matches!(
        PerfViewExporter::export_plan("d", &groups, true, true, Some(1), None),
        Err(ExportError::CSwitchKindUnknown)
    ));
}
