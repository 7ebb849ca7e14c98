use fire::args::Args;
use fire::discover::{find_env_files, search_dirs};
use fire::prop::{Property, Source};
use fire::template::merge;

fn comps(parts: &[&str]) -> Vec<String> {
    parts.iter().map(|p| p.to_string()).collect()
}

#[test]
fn chain_runs_from_repo_parent_to_template_directory() {
    let end = comps(&["home", "work", "repo", "requests"]);
    let root = Some(comps(&["home", "work", "repo"]));
    let dirs = search_dirs(&end, &root);
    assert_eq!(
        vec![
            comps(&["home", "work"]),
            comps(&["home", "work", "repo"]),
            comps(&["home", "work", "repo", "requests"]),
        ],
        dirs
    );
}

#[test]
fn chain_without_repo_is_the_template_directory_alone() {
    let end = comps(&["tmp", "somewhere"]);
    let dirs = search_dirs(&end, &None);
    assert_eq!(vec![comps(&["tmp", "somewhere"])], dirs);
}

#[test]
fn discovery_selects_eligible_names_shallow_to_deep() {
    let dirs = vec![comps(&["a"]), comps(&["a", "b"])];
    let listings = vec![
        comps(&["README.md", "staging.env", ".env", "other.txt"]),
        comps(&["staging.sec", "dev.env", ".sec"]),
    ];
    let environments = comps(&["staging"]);
    let files = find_env_files(&dirs, &listings, &environments);
    let got: Vec<(Vec<String>, String)> =
        files.into_iter().map(|f| (f.dir, f.name)).collect();
    assert_eq!(
        vec![
            (comps(&["a"]), "staging.env".to_string()),
            (comps(&["a"]), ".env".to_string()),
            (comps(&["a", "b"]), "staging.sec".to_string()),
            (comps(&["a", "b"]), ".sec".to_string()),
        ],
        got
    );
}

#[test]
fn args_flag_implications() {
    let args = Args::new(
        1, false, false, false, false, false, false, true, false, Vec::new(), Vec::new(), 30,
        "req.yaml".to_string(),
    );
    // Interactive implies ask, which implies printing request and headers.
    assert!(args.interactive());
    assert!(args.ask());
    assert!(args.print_request());
    assert!(args.print_headers());
    assert_eq!(30, args.timeout());
    assert_eq!("req.yaml", args.file());
}

#[test]
fn args_env_gathers_sources_in_merge_order() {
    let arg_vars =
        vec![Property::new("K".to_string(), "from-arg".to_string(), Source::EnvVar).unwrap()];
    let args = Args::new(
        1, false, false, false, false, false, false, false, false, Vec::new(), arg_vars, 30,
        "req.yaml".to_string(),
    );
    let sys = vec![("K".to_string(), "from-sys".to_string())];
    let files =
        vec![Property::new("K".to_string(), "from-file".to_string(), Source::File(3)).unwrap()];
    let props = args.env(&sys, files);
    assert_eq!(3, props.len());
    // Explicit overrides are retagged as Arg and win the merge.
    assert_eq!(Source::Arg, props[2].prio());
    let resolved = merge(&props);
    assert_eq!("from-arg", resolved.get("K").unwrap().as_str());
}

#[test]
fn read_file_envs_tags_depth_and_aborts_on_bad_line() {
    let files = vec![
        (2usize, "A=1".to_string()),
        (5usize, "A=2\nB=3".to_string()),
    ];
    let props = Args::read_file_envs(&files).unwrap();
    assert_eq!(3, props.len());
    assert_eq!(Source::File(2), props[0].prio());
    assert_eq!(Source::File(5), props[1].prio());
    // The deeper file's value wins resolution.
    assert_eq!("2", merge(&props).get("A").unwrap().as_str());

    let bad = vec![(0usize, "fine=1\nnot a line".to_string())];
    assert!(Args::read_file_envs(&bad).is_err());
}
