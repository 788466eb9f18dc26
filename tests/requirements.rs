use file_requirements::builder::{FileRequirementBuildError, FileRequirementBuilder};
use file_requirements::check::ProbeOutcome;
use file_requirements::requirement::FileRequirement;

fn index_tree() -> FileRequirement {
    let mut b = FileRequirementBuilder::new();
    b.require_file("idx.ctab").unwrap();
    b.require_any(|any| {
        any.require_file("idx.sshash")?;
        any.require_all(|all| {
            all.require_file("idx.ssi")?;
            all.require_file("idx.ssi.mphf")?;
            Ok(())
        })?;
        Ok(())
    })
    .unwrap();
    b.build()
}

fn table(entries: &[(&str, ProbeOutcome)]) -> Vec<(String, ProbeOutcome)> {
    entries
        .iter()
        .map(|(p, o)| {
            let o = match o {
                ProbeOutcome::Exists => ProbeOutcome::Exists,
                ProbeOutcome::Missing => ProbeOutcome::Missing,
                ProbeOutcome::Failed(c) => ProbeOutcome::Failed(c.clone()),
            };
            (p.to_string(), o)
        })
        .collect()
}

#[test]
fn builder_rejects_duplicate_term_across_nested_groups() {
    let mut b = FileRequirementBuilder::new();
    let err = match b.require_any(|any| {
        any.require_file("a.txt")?;
        any.require_all(|all| {
            all.require_file("b.txt")?;
            all.require_file("a.txt")?;
            Ok(())
        })?;
        Ok(())
    }) {
        Ok(_) => panic!("expected duplicate file insertion to fail"),
        Err(err) => err,
    };
    assert!(matches!(
        err,
        FileRequirementBuildError::DuplicateFile { .. }
    ));
}

#[test]
fn checker_succeeds_when_or_clause_satisfied_by_compound_branch() {
    let req = index_tree();
    let known = table(&[
        ("idx.ctab", ProbeOutcome::Exists),
        ("idx.ssi", ProbeOutcome::Exists),
        ("idx.ssi.mphf", ProbeOutcome::Exists),
        ("idx.sshash", ProbeOutcome::Missing),
    ]);
    assert!(req.check_with(&known).is_ok());
}

#[test]
fn checker_fails_when_no_or_branch_is_satisfied() {
    let req = index_tree();
    let known = table(&[
        ("idx.ctab", ProbeOutcome::Exists),
        ("idx.ssi", ProbeOutcome::Exists),
        ("idx.ssi.mphf", ProbeOutcome::Missing),
        ("idx.sshash", ProbeOutcome::Missing),
    ]);
    let err = req.check_with(&known).expect_err("expected OR clause to fail");
    let rendered = err.message().to_string();
    assert!(rendered.contains("unsatisfied disjunction"));
    assert!(rendered.contains("sshash"));
    assert!(rendered.contains("ssi.mphf"));
}

#[test]
fn failure_message_is_exact_and_sorted() {
    let req = index_tree();
    let known = table(&[
        ("idx.ctab", ProbeOutcome::Exists),
        ("idx.ssi", ProbeOutcome::Exists),
        ("idx.ssi.mphf", ProbeOutcome::Missing),
        ("idx.sshash", ProbeOutcome::Missing),
    ]);
    let err = req.check_with(&known).unwrap_err();
    assert_eq!(
        err.message(),
        "Required input files were missing or incomplete (missing files: idx.sshash, idx.ssi.mphf; \
         unsatisfied disjunction(s): (idx.sshash OR (idx.ssi AND idx.ssi.mphf)))"
    );
}

#[test]
fn duplicate_at_root_then_in_group_is_refused() {
    let mut b = FileRequirementBuilder::new();
    b.require_file("a").unwrap();
    let err = b.require_any(|g| {
        g.require_file("a")?;
        Ok(())
    });
    match err {
        Err(FileRequirementBuildError::DuplicateFile { path }) => assert_eq!(path, "a"),
        other => panic!("unexpected result: {:?}", other),
    }
    assert_eq!(b.build().to_string(), "(a)");
}

#[test]
fn duplicate_insert_leaves_terms_unchanged() {
    let mut b = FileRequirementBuilder::new();
    b.require_file("x").unwrap();
    assert!(b.require_file("x").is_err());
    b.require_file("y").unwrap();
    assert_eq!(b.build().to_string(), "(x AND y)");
}

#[test]
fn empty_and_group_is_refused() {
    let mut b = FileRequirementBuilder::new();
    let err = b.require_all(|_g| Ok(()));
    match err {
        Err(FileRequirementBuildError::EmptyGroup { group }) => assert_eq!(group, "AND"),
        other => panic!("unexpected result: {:?}", other),
    }
    assert_eq!(b.build().to_string(), "()");
}

#[test]
fn empty_or_group_is_refused() {
    let mut b = FileRequirementBuilder::new();
    b.require_file("k").unwrap();
    let err = b.require_any(|_g| Ok(()));
    match err {
        Err(FileRequirementBuildError::EmptyGroup { group }) => assert_eq!(group, "OR"),
        other => panic!("unexpected result: {:?}", other),
    }
    assert_eq!(b.build().to_string(), "(k)");
}

#[test]
fn rendering_of_built_tree() {
    let req = index_tree();
    assert_eq!(
        req.to_string(),
        "(idx.ctab AND (idx.sshash OR (idx.ssi AND idx.ssi.mphf)))"
    );
    assert_eq!(req.to_string(), index_tree().to_string());
}

#[test]
fn and_group_reports_every_failing_child() {
    let mut b = FileRequirementBuilder::new();
    b.require_file("z").unwrap();
    b.require_file("m").unwrap();
    b.require_file("q").unwrap();
    let req = b.build();
    let known = table(&[
        ("z", ProbeOutcome::Missing),
        ("m", ProbeOutcome::Exists),
        ("q", ProbeOutcome::Failed("denied".to_string())),
    ]);
    let err = req.check_with(&known).unwrap_err();
    assert_eq!(
        err.message(),
        "Required input files were missing or incomplete (missing files: z; path check errors: q (denied))"
    );
}

#[test]
fn or_group_stops_at_first_satisfied_child() {
    let mut b = FileRequirementBuilder::new();
    b.require_any(|g| {
        g.require_file("first")?;
        g.require_file("second")?;
        Ok(())
    })
    .unwrap();
    let req = b.build();
    let known = table(&[
        ("first", ProbeOutcome::Exists),
        ("second", ProbeOutcome::Failed("broken".to_string())),
    ]);
    assert!(req.check_with(&known).is_ok());
}

#[test]
fn or_group_failure_unites_all_branches() {
    let mut b = FileRequirementBuilder::new();
    b.require_any(|g| {
        g.require_file("b")?;
        g.require_file("a")?;
        g.require_file("c")?;
        Ok(())
    })
    .unwrap();
    let req = b.build();
    let known = table(&[
        ("a", ProbeOutcome::Missing),
        ("b", ProbeOutcome::Missing),
        ("c", ProbeOutcome::Failed("io".to_string())),
    ]);
    let err = req.check_with(&known).unwrap_err();
    assert_eq!(
        err.message(),
        "Required input files were missing or incomplete (missing files: a, b; path check errors: c (io); \
         unsatisfied disjunction(s): (b OR a OR c))"
    );
}

#[test]
fn same_disjunction_text_is_reported_once() {
    let mut b = FileRequirementBuilder::new();
    b.require_any(|g| {
        g.require_file("p")?;
        Ok(())
    })
    .unwrap();
    let req = b.build();
    let known = table(&[("p", ProbeOutcome::Missing)]);
    let err = req.check_with(&known).unwrap_err();
    assert_eq!(
        err.message(),
        "Required input files were missing or incomplete (missing files: p; unsatisfied disjunction(s): (p))"
    );
}

#[test]
fn check_twice_gives_same_result() {
    let req = index_tree();
    let known = table(&[
        ("idx.ctab", ProbeOutcome::Missing),
        ("idx.ssi", ProbeOutcome::Exists),
        ("idx.ssi.mphf", ProbeOutcome::Missing),
        ("idx.sshash", ProbeOutcome::Missing),
    ]);
    let a = req.check_with(&known).unwrap_err();
    let b = req.check_with(&known).unwrap_err();
    assert_eq!(a.message(), b.message());
}

#[test]
fn first_entry_of_known_outcome_wins() {
    let mut b = FileRequirementBuilder::new();
    b.require_file("f").unwrap();
    let req = b.build();
    let known = table(&[("f", ProbeOutcome::Exists), ("f", ProbeOutcome::Missing)]);
    assert!(req.check_with(&known).is_ok());
}

#[test]
fn check_on_disk_reports_a_missing_path() {
    let mut b = FileRequirementBuilder::new();
    b.require_file("no_such_dir_for_requirements/never_there.bin").unwrap();
    let req = b.build();
    let err = req.check().unwrap_err();
    assert_eq!(
        err.message(),
        "Required input files were missing or incomplete (missing files: no_such_dir_for_requirements/never_there.bin)"
    );
}

#[test]
fn empty_tree_is_satisfied() {
    let req = FileRequirementBuilder::new().build();
    assert!(req.check().is_ok());
}

#[test]
fn default_builder_is_empty() {
    let b = FileRequirementBuilder::default();
    assert_eq!(b.build().to_string(), "()");
}

#[test]
fn cloned_tree_renders_the_same() {
    let req = index_tree();
    let copy = req.clone();
    assert_eq!(copy.to_string(), req.to_string());
}

#[test]
fn paths_of_a_failed_group_stay_taken() {
    let mut b = FileRequirementBuilder::new();
    let r = b.require_any(|g| {
        g.require_file("n")?;
        g.require_file("n")?;
        Ok(())
    });
    assert!(r.is_err());
    match b.require_file("n") {
        Err(FileRequirementBuildError::DuplicateFile { path }) => assert_eq!(path, "n"),
        other => panic!("unexpected result: {:?}", other),
    }
    assert_eq!(b.build().to_string(), "()");
}

#[test]
fn nested_group_paths_are_taken_by_the_parent() {
    let mut b = FileRequirementBuilder::new();
    b.require_all(|g| {
        g.require_file("u")?;
        g.require_file("v")?;
        Ok(())
    })
    .unwrap();
    assert!(b.require_file("v").is_err());
    b.require_file("w").unwrap();
    assert_eq!(b.build().to_string(), "((u AND v) AND w)");
}
