use trace_gen::emit::{generate_ebpf, generate_stap, TraceType};
use trace_gen::index::{ObjectIndex, TargetIndex};
use trace_gen::model::{Collection, LinkScript, Object, Symbol, Target, TraceError, EXEC,
    SHARED, STATIC};
use trace_gen::query::{check_target, generate, list_targets};
use trace_gen::resolve::{closure, one_hop};
use trace_gen::symbols::{collect_symbols, TraceTarget};

fn target(name: &str, abs_path: &str, deps: &[&str], target_type: u8) -> Target {
    Target {
        name: name.to_string(),
        abs_path: abs_path.to_string(),
        dependencies: deps.iter().map(|d| d.to_string()).collect(),
        target_type,
        linking_args: Vec::new(),
        ranlib_args: Vec::new(),
    }
}

fn script(t: Target) -> LinkScript {
    LinkScript { abs_path: format!("{}.cmake", t.name), target: t }
}

fn object(abs_path: &str, name: &str, defined: &[&str], undefined: &[&str]) -> Object {
    Object {
        abs_path: abs_path.to_string(),
        name: name.to_string(),
        defined_symbols: defined.iter().map(|s| Symbol { name: s.to_string() }).collect(),
        undefined_symbols: undefined.iter().map(|s| Symbol { name: s.to_string() }).collect(),
    }
}

fn trace_target(name: &str, path: &str, symbols: &[&str]) -> TraceTarget {
    TraceTarget {
        name: name.to_string(),
        abs_path: path.to_string(),
        symbols: symbols.iter().map(|s| s.to_string()).collect(),
    }
}

const EBPF_FOO_BAR: &str = "uprobe:/out/libfoo.so:bar {\n    if (pid > 0) {\n        printf(\"probe: %s\\n%s\\n\", probe, ustack(perf));\n    }\n}";

#[test]
fn list_reports_exec_and_shared_only() {
    let scripts = vec![
        script(target("app", "/out/app", &[], EXEC)),
        script(target("libx.so", "/out/libx.so", &[], SHARED)),
        script(target("liby.a", "/out/liby.a", &[], STATIC)),
    ];
    let listed = list_targets(&scripts);
    assert_eq!(listed.len(), 2);
    assert!(listed[0].is_exec);
    assert_eq!(listed[0].name, "app");
    assert_eq!(listed[0].abs_path, "/out/app");
    assert!(!listed[1].is_exec);
    assert_eq!(listed[1].name, "libx.so");
}

#[test]
fn one_hop_drops_archives_and_objects() {
    let idx = TargetIndex::from_scripts(&vec![
        script(target("liba.a", "/out/liba.a", &[], STATIC)),
        script(target("libb.so", "/out/libb.so", &[], SHARED)),
    ]);
    let root = target(
        "app",
        "/out/app",
        &["/out/liba.a", "/out/libb.so", "/obj/c.o", "/usr/lib/libz.so"],
        EXEC,
    );
    let deps = one_hop(&root, &idx);
    assert_eq!(deps.len(), 1);
    assert_eq!(deps[0].name, "libb.so");
}

#[test]
fn one_hop_keeps_only_index_members() {
    let idx = TargetIndex::from_scripts(&vec![
        script(target("libb.so", "/out/libb.so", &[], SHARED)),
    ]);
    let root = target("app", "/out/app", &["/out/libb.so", "/out/unknown.so"], EXEC);
    let deps = one_hop(&root, &idx);
    assert_eq!(deps.len(), 1);
    assert_eq!(deps[0].name, "libb.so");
}

#[test]
fn closure_follows_transitive_chain() {
    let idx = TargetIndex::from_scripts(&vec![
        script(target("app", "/out/app", &["/out/libb.so"], EXEC)),
        script(target("libb.so", "/out/libb.so", &["/out/libc.so"], SHARED)),
        script(target("libc.so", "/out/libc.so", &[], SHARED)),
    ]);
    let seed = vec![target("app", "/out/app", &["/out/libb.so"], EXEC)];
    let all = closure(&seed, &idx);
    let names: Vec<&str> = all.iter().map(|t| t.name.as_str()).collect();
    assert_eq!(names, vec!["app", "libb.so", "libc.so"]);
}

#[test]
fn closure_terminates_on_cycles() {
    let idx = TargetIndex::from_scripts(&vec![
        script(target("liba.so", "/out/liba.so", &["/out/libb.so"], SHARED)),
        script(target("libb.so", "/out/libb.so", &["/out/liba.so"], SHARED)),
    ]);
    let seed = vec![target("liba.so", "/out/liba.so", &["/out/libb.so"], SHARED)];
    let all = closure(&seed, &idx);
    let mut names: Vec<&str> = all.iter().map(|t| t.name.as_str()).collect();
    names.sort();
    assert_eq!(names, vec!["liba.so", "libb.so"]);
}

#[test]
fn closure_keeps_length_at_least_seed() {
    let idx = TargetIndex::from_scripts(&vec![
        script(target("libb.so", "/out/libb.so", &[], SHARED)),
    ]);
    let seed = vec![
        target("libb.so", "/out/libb.so", &[], SHARED),
        target("libb.so", "/out/libb.so", &[], SHARED),
    ];
    let all = closure(&seed, &idx);
    assert_eq!(all.len(), 1);
    assert_eq!(all[0].name, "libb.so");
}

#[test]
fn symbols_empty_without_object_deps() {
    let objs = ObjectIndex::from_objects(&vec![object("/obj/a.o", "a", &["sym"], &[])]);
    let targets = vec![target("libb.so", "/out/libb.so", &["/out/libc.so"], SHARED)];
    let collected = collect_symbols(&targets, &objs).unwrap();
    assert_eq!(collected.len(), 1);
    assert!(collected[0].symbols.is_empty());
}

#[test]
fn symbols_concatenated_in_order() {
    let objs = ObjectIndex::from_objects(&vec![
        object("/obj/a.o", "a", &["a1", "a2"], &["ext"]),
        object("/obj/b.o", "b", &["b1"], &[]),
    ]);
    let targets = vec![target(
        "app",
        "/out/app",
        &["/obj/b.o", "/out/libz.so", "/obj/a.o"],
        EXEC,
    )];
    let collected = collect_symbols(&targets, &objs).unwrap();
    assert_eq!(collected[0].name, "app");
    assert_eq!(collected[0].abs_path, "/out/app");
    assert_eq!(collected[0].symbols, vec!["b1", "a1", "a2"]);
}

#[test]
fn symbols_missing_object_is_reported() {
    let objs = ObjectIndex::from_objects(&vec![object("/obj/a.o", "a", &["a1"], &[])]);
    let targets = vec![target("app", "/out/app", &["/obj/a.o", "/obj/gone.o"], EXEC)];
    match collect_symbols(&targets, &objs) {
        Err(TraceError::MissingObjectReference(path)) => {
            assert_eq!(path, "/obj/gone.o");
        },
        _ => panic!("expected a missing object reference"),
    }
}

#[test]
fn ebpf_single_block_exact() {
    let input = vec![trace_target("libfoo.so", "/out/libfoo.so", &["bar"])];
    assert_eq!(generate_ebpf(&input), EBPF_FOO_BAR);
}

#[test]
fn stap_single_block_exact() {
    let input = vec![trace_target("libfoo.so", "/out/libfoo.so", &["bar"])];
    let expected = "probe process(\"/out/libfoo.so\").function(\"bar\").call {\n    printf(\"probe: %s\", ppfunc());\n    print_usyms(ucallers(-1));\n}";
    assert_eq!(generate_stap(&input), expected);
}

#[test]
fn ebpf_two_blocks_one_blank_line() {
    let input = vec![trace_target("libfoo.so", "/out/libfoo.so", &["bar", "baz"])];
    let expected = format!(
        "{}\n\n{}",
        EBPF_FOO_BAR,
        "uprobe:/out/libfoo.so:baz {\n    if (pid > 0) {\n        printf(\"probe: %s\\n%s\\n\", probe, ustack(perf));\n    }\n}",
    );
    assert_eq!(generate_ebpf(&input), expected);
}

#[test]
fn emitter_keeps_no_leading_or_trailing_separator() {
    let input = vec![
        trace_target("a", "/out/a", &["s1"]),
        trace_target("b", "/out/b", &[]),
        trace_target("c", "/out/c", &["s2"]),
    ];
    let doc = generate_ebpf(&input);
    assert!(doc.starts_with("uprobe:/out/a:s1"));
    assert!(doc.ends_with("}"));
    assert!(!doc.contains("\n\n\n"));
}

#[test]
fn trace_type_parse_accepts_the_two_dialects() {
    assert_eq!(TraceType::parse("ebpf"), Some(TraceType::EBpf));
    assert_eq!(TraceType::parse("stap"), Some(TraceType::STap));
    assert_eq!(TraceType::parse("dtrace"), None);
    assert_eq!(TraceType::parse(""), None);
}

#[test]
fn target_index_duplicate_names_overwrite() {
    let idx = TargetIndex::from_scripts(&vec![
        script(target("app", "/out/old", &[], EXEC)),
        script(target("app", "/out/new", &[], EXEC)),
    ]);
    let found = idx.get("app").unwrap();
    assert_eq!(found.abs_path, "/out/new");
    assert!(idx.get("missing").is_none());
}

#[test]
fn check_reports_one_hop_paths() {
    let idx = TargetIndex::from_scripts(&vec![
        script(target("app", "/out/app", &["/out/libb.so", "/obj/x.o"], EXEC)),
        script(target("libb.so", "/out/libb.so", &["/out/libc.so"], SHARED)),
        script(target("libc.so", "/out/libc.so", &[], SHARED)),
    ]);
    let paths = check_target("app", &idx).unwrap();
    assert_eq!(paths, vec!["/out/libb.so"]);
}

#[test]
fn check_unknown_target_fails() {
    let idx = TargetIndex::from_scripts(&vec![script(target("app", "/out/app", &[], EXEC))]);
    match check_target("nope", &idx) {
        Err(TraceError::UnknownTarget(name)) => assert_eq!(name, "nope"),
        _ => panic!("expected an unknown target error"),
    }
}

#[test]
fn generate_unknown_target_fails() {
    let collection = Collection {
        objects: Vec::new(),
        scripts: vec![script(target("app", "/out/app", &[], EXEC))],
        compile: Vec::new(),
    };
    match generate("nope", TraceType::EBpf, &collection) {
        Err(TraceError::UnknownTarget(name)) => assert_eq!(name, "nope"),
        _ => panic!("expected an unknown target error"),
    }
}

#[test]
fn generate_end_to_end_ebpf() {
    let collection = Collection {
        objects: vec![
            object("/obj/main.o", "main", &["main_entry"], &[]),
            object("/obj/x.o", "x", &["x_init"], &[]),
        ],
        scripts: vec![
            script(target("app", "/out/app", &["/out/libx.so", "/obj/main.o"], EXEC)),
            script(target("libx.so", "/out/libx.so", &["/obj/x.o"], SHARED)),
        ],
        compile: vec!["cc -c main.c".to_string()],
    };
    let doc = generate("app", TraceType::EBpf, &collection).unwrap();
    let expected = "uprobe:/out/app:main_entry {\n    if (pid > 0) {\n        printf(\"probe: %s\\n%s\\n\", probe, ustack(perf));\n    }\n}\n\nuprobe:/out/libx.so:x_init {\n    if (pid > 0) {\n        printf(\"probe: %s\\n%s\\n\", probe, ustack(perf));\n    }\n}";
    assert_eq!(doc, expected);
}

#[test]
fn generate_missing_object_fails() {
    let collection = Collection {
        objects: Vec::new(),
        scripts: vec![script(target("app", "/out/app", &["/obj/main.o"], EXEC))],
        compile: Vec::new(),
    };
    match generate("app", TraceType::STap, &collection) {
        Err(TraceError::MissingObjectReference(path)) => assert_eq!(path, "/obj/main.o"),
        _ => panic!("expected a missing object reference"),
    }
}

#[test]
fn error_messages_name_the_subject() {
    let unknown = TraceError::UnknownTarget("app".to_string());
    assert_eq!(unknown.message(), "target does not exists: app");
    let missing = TraceError::MissingObjectReference("/obj/a.o".to_string());
    assert_eq!(missing.message(), "missing object reference: /obj/a.o");
}
