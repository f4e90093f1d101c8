use zz::name::Name;
use zz::pipeline::{
    after_check, can_plan, collect_required, finish, foreign_cfile, is_emitted, is_selected,
    macro_artifact, main_module, plan, required_symbols, schedule, tries_again, BuildError, CFile,
    Finish, Verdict,
};
use zz::project::{Artifact, ArtifactType, BuildSet};

fn artifact(name: &str, typ: ArtifactType) -> Artifact {
    Artifact { name: name.to_string(), main: name.to_string(), typ }
}

fn cfile(name: &str, deps: &[&str]) -> CFile {
    CFile {
        name: Name::from(name),
        filepath: format!("{}.c", name),
        sources: vec![],
        deps: deps.iter().map(|d| Name::from(*d)).collect(),
        symbols: vec![],
        cflags: vec![],
        lflags: vec![],
    }
}

#[test]
fn export_builds_only_export_kinds() {
    for (typ, want) in [
        (ArtifactType::Lib, false),
        (ArtifactType::Exe, false),
        (ArtifactType::Test, false),
        (ArtifactType::Macro, false),
        (ArtifactType::CBindingCrate, true),
        (ArtifactType::JsBindings, true),
        (ArtifactType::PyBindings, true),
        (ArtifactType::CMake, true),
        (ArtifactType::Esp32, true),
    ] {
        assert_eq!(is_selected(&artifact("a", typ), &BuildSet::Export), want);
    }
}

#[test]
fn named_builds_the_named_artifact_whatever_its_kind() {
    let set = BuildSet::Named("t".to_string());
    assert!(is_selected(&artifact("t", ArtifactType::Test), &set));
    assert!(!is_selected(&artifact("u", ArtifactType::Exe), &set));
}

#[test]
fn tests_are_built_only_for_tests() {
    let t = artifact("t", ArtifactType::Test);
    assert!(is_selected(&t, &BuildSet::Tests));
    assert!(!is_selected(&t, &BuildSet::Run));
    assert!(!is_selected(&t, &BuildSet::All));
    assert!(!is_selected(&t, &BuildSet::Check(None)));
}

#[test]
fn run_builds_executables_only() {
    assert!(is_selected(&artifact("e", ArtifactType::Exe), &BuildSet::Run));
    assert!(!is_selected(&artifact("l", ArtifactType::Lib), &BuildSet::Run));
    assert!(is_selected(&artifact("l", ArtifactType::Lib), &BuildSet::All));
    assert!(is_selected(&artifact("l", ArtifactType::Lib), &BuildSet::Tests));
    assert!(is_selected(&artifact("e", ArtifactType::Exe), &BuildSet::Tests));
}

#[test]
fn plan_keeps_project_order() {
    let artifacts = vec![
        artifact("a", ArtifactType::Lib),
        artifact("t", ArtifactType::Test),
        artifact("e", ArtifactType::Exe),
    ];
    assert_eq!(plan(&artifacts, &BuildSet::All), vec![0, 2]);
    assert_eq!(plan(&artifacts, &BuildSet::Tests), vec![0, 1, 2]);
    assert_eq!(plan(&artifacts, &BuildSet::Run), vec![2]);
    assert!(plan(&artifacts, &BuildSet::Export).is_empty());
    assert_eq!(plan(&artifacts, &BuildSet::Named("t".to_string())), vec![1]);
}

#[test]
fn a_named_build_needs_an_artifact_of_that_name() {
    let artifacts = vec![artifact("a", ArtifactType::Lib)];
    assert!(!can_plan(&artifacts, &BuildSet::Named("nope".to_string())));
    assert!(can_plan(&artifacts, &BuildSet::Named("a".to_string())));
    assert!(!can_plan(&vec![], &BuildSet::Named("a".to_string())));
    for set in [BuildSet::All, BuildSet::Tests, BuildSet::Run, BuildSet::Export, BuildSet::Check(None)] {
        assert!(can_plan(&artifacts, &set));
        assert!(can_plan(&vec![], &set));
    }
    let none: Vec<usize> = vec![];
    assert_eq!(plan(&vec![], &BuildSet::All), none);
}

#[test]
fn macros_are_built_before_the_artifacts_of_the_project() {
    let artifacts = vec![
        artifact("a", ArtifactType::Lib),
        artifact("t", ArtifactType::Test),
        artifact("e", ArtifactType::Exe),
    ];
    let macros = vec![Name::from("::proj::m::make"), Name::from("::proj::o::third")];
    let order = schedule(&artifacts, &BuildSet::All, &macros);
    let names: Vec<&str> = order.iter().map(|a| a.name.as_str()).collect();
    assert_eq!(names, vec!["proj_m_make", "proj_o_third", "a", "e"]);
    assert_eq!(order[0], macro_artifact(&macros[0]));
    assert_eq!(order[1].typ, ArtifactType::Macro);
    assert_eq!(order[2], artifacts[0]);
    assert_eq!(order[3], artifacts[2]);
    let named = schedule(&artifacts, &BuildSet::Named("t".to_string()), &vec![]);
    assert_eq!(named, vec![artifacts[1].clone()]);
    assert_eq!(schedule(&vec![], &BuildSet::Run, &macros).len(), 2);
}

#[test]
fn waiting_modules_are_tried_again_while_their_number_falls() {
    assert!(!tries_again(0, 5, 0));
    assert!(!tries_again(0, 0, 3));
    assert!(tries_again(5, 5, 0));
    assert!(tries_again(2, 5, 0));
    assert!(tries_again(2, 5, 1));
    assert!(!tries_again(5, 5, 1));
    assert!(!tries_again(3, 3, 7));
    assert!(tries_again(1, 2, 7));
}

#[test]
fn macro_artifact_is_named_after_its_module() {
    let a = macro_artifact(&Name::from("::proj::m::mac"));
    assert_eq!(a.name, "proj_m_mac");
    assert_eq!(a.main, "::proj::m::mac");
    assert_eq!(a.typ, ArtifactType::Macro);
}

#[test]
fn main_module_is_made_absolute() {
    assert_eq!(main_module("proj::main"), Name::from("::proj::main"));
    assert_eq!(main_module("::proj::main"), Name::from("::proj::main"));
}

#[test]
fn check_verdicts() {
    assert_eq!(after_check(true, true), Verdict::Emit);
    assert_eq!(after_check(true, false), Verdict::Retry);
    assert_eq!(after_check(false, true), Verdict::Abort);
    assert_eq!(after_check(false, false), Verdict::Abort);
}

#[test]
fn foreign_descriptor_holds_name_and_path_only() {
    let cf = foreign_cfile(Name::from("::proj::h"), "src/h.h".to_string());
    assert_eq!(cf.name, Name::from("::proj::h"));
    assert_eq!(cf.filepath, "src/h.h");
    assert!(cf.deps.is_empty() && cf.sources.is_empty() && cf.symbols.is_empty());
}

#[test]
fn required_modules_are_collected_breadth_first() {
    let cfiles = vec![
        cfile("::p::c", &[]),
        cfile("::p::main", &["::p::a", "::p::b"]),
        cfile("::p::a", &["::p::c"]),
        cfile("::p::b", &["::p::c", "::p::main"]),
        cfile("::p::unused", &["::p::main"]),
    ];
    let order = collect_required(&Name::from("::p::main"), &cfiles).unwrap();
    assert_eq!(order, vec![1, 2, 3, 0]);
}

#[test]
fn required_module_alone() {
    let cfiles = vec![cfile("::p::main", &[])];
    assert_eq!(collect_required(&Name::from("::p::main"), &cfiles), Ok(vec![0]));
}

#[test]
fn missing_main_or_dependency_is_reported() {
    let cfiles = vec![cfile("::p::main", &["::p::gone"])];
    assert_eq!(
        collect_required(&Name::from("::p::main"), &cfiles),
        Err(BuildError::MissingModule(Name::from("::p::gone")))
    );
    assert_eq!(
        collect_required(&Name::from("::p::nope"), &cfiles),
        Err(BuildError::MissingModule(Name::from("::p::nope")))
    );
}

#[test]
fn unneeded_module_may_miss_dependencies() {
    let cfiles = vec![cfile("::p::main", &[]), cfile("::p::other", &["::p::gone"])];
    assert_eq!(collect_required(&Name::from("::p::main"), &cfiles), Ok(vec![0]));
}

#[test]
fn symbol_table_holds_each_symbol_of_the_built_modules_once() {
    let mut a = cfile("::p::a", &[]);
    a.symbols = vec![Name::from("::p::a::x"), Name::from("::p::a::y"), Name::from("::p::a::x")];
    let mut b = cfile("::p::b", &["::p::a"]);
    b.symbols = vec![Name::from("::p::b::main"), Name::from("::p::a::y")];
    let mut c = cfile("::p::c", &[]);
    c.symbols = vec![Name::from("::p::c::unused")];
    let cfiles = vec![a, b, c];
    assert_eq!(
        required_symbols(&vec![1, 0], &cfiles),
        vec![
            Name::from("::p::b::main"),
            Name::from("::p::a::y"),
            Name::from("::p::a::x"),
        ]
    );
    assert_eq!(
        required_symbols(&vec![0, 1, 0], &cfiles),
        vec![
            Name::from("::p::a::x"),
            Name::from("::p::a::y"),
            Name::from("::p::b::main"),
        ]
    );
    assert_eq!(required_symbols(&vec![], &cfiles), Vec::<Name>::new());
    assert_eq!(required_symbols(&vec![2], &cfiles), vec![Name::from("::p::c::unused")]);
    let order = collect_required(&Name::from("::p::b"), &cfiles).unwrap();
    assert_eq!(order, vec![1, 0]);
    assert_eq!(required_symbols(&order, &cfiles).len(), 3);
}

#[test]
fn a_check_stops_after_emitting_and_every_other_build_links() {
    assert_eq!(finish(&BuildSet::Check(None)), Finish::Stop);
    assert_eq!(finish(&BuildSet::Check(Some("src/a.zz".to_string()))), Finish::Stop);
    for set in [BuildSet::All, BuildSet::Tests, BuildSet::Run, BuildSet::Export, BuildSet::Named("x".to_string())] {
        assert_eq!(finish(&set), Finish::Link);
    }
}

#[test]
fn a_check_of_one_file_emits_that_file_only() {
    let one = BuildSet::Check(Some("src/a.zz".to_string()));
    assert!(is_emitted(&one, "src/a.zz"));
    assert!(!is_emitted(&one, "src/b.zz"));
    assert!(!is_emitted(&one, ""));
    assert!(is_emitted(&BuildSet::Check(None), "src/b.zz"));
    assert!(is_emitted(&BuildSet::All, "src/b.zz"));
    assert!(is_emitted(&BuildSet::Run, ""));
}

#[test]
fn modules_are_taken_in_the_order_of_their_names() {
    use_sorted();
}

fn use_sorted() {
    let header = |n: &str| zz::loader::Module::C { name: Name::from(n), path: format!("{}.h", n) };
    let sorted = zz::loader::sort_by_name(vec![
        header("::p::b"),
        header("::p::a::z"),
        header("::p"),
        header("::p::a"),
        header("::o::x"),
        header("::p::a"),
    ]);
    let names: Vec<String> = sorted.iter().map(|m| zz::loader::name_of(m).to_string()).collect();
    assert_eq!(names, vec!["::o::x", "::p", "::p::a", "::p::a", "::p::a::z", "::p::b"]);
    assert!(zz::loader::sort_by_name(vec![]).is_empty());
    let config = zz::project::Config {
        project: zz::project::Project { name: "p".to_string() },
        artifacts: vec![],
        dependencies: vec![],
    };
    let p = zz::pipeline::Pipeline::new(config, "v".to_string(), vec![header("::p::b"), header("::p::a")]);
    assert_eq!(zz::loader::name_of(&p.modules[0]), &Name::from("::p::a"));
    assert_eq!(p.exports[0].name, Name::from("::p::a"));
    assert_eq!(p.completed_abs, vec![false, false]);
}
