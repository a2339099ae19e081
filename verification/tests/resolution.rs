use ruggit::gapi::{
    find_project, merge_pages, resolve_groups, total_pages, GapiError, GitlabResourceMeta,
    Resolution,
};

fn group(id: u32, full_path: &str) -> GitlabResourceMeta {
    GitlabResourceMeta {
        id,
        full_path: Some(full_path.to_string()),
        path_with_namespace: None,
    }
}

fn project(id: u32, path_with_namespace: &str) -> GitlabResourceMeta {
    GitlabResourceMeta {
        id,
        full_path: None,
        path_with_namespace: Some(path_with_namespace.to_string()),
    }
}

fn toks(parts: &[&str]) -> Vec<String> {
    parts.iter().map(|p| p.to_string()).collect()
}

#[test]
fn requested_path_is_itself_a_group() {
    let groups = vec![group(42, "org/group")];
    let tokens = toks(&["org", "group"]);
    match resolve_groups(&groups, &tokens) {
        Resolution::Group(m) => {
            assert_eq!(m.id, 42);
            assert_eq!(m.full_path, Some("org/group".to_string()));
        }
        other => panic!("expected the group itself, got {:?}", other),
    }
}

#[test]
fn project_found_through_containing_group() {
    let groups = vec![group(42, "org/group")];
    let tokens = toks(&["org", "group", "project"]);
    let containing = match resolve_groups(&groups, &tokens) {
        Resolution::NeedsProjects(m) => m,
        other => panic!("expected a containing group, got {:?}", other),
    };
    assert_eq!(containing.id, 42);

    let projects = vec![project(7, "org/group/project")];
    let found = find_project(&projects, &tokens).unwrap();
    assert_eq!(found.id, 7);
    assert_eq!(
        found.path_with_namespace,
        Some("org/group/project".to_string())
    );
}

#[test]
fn no_containing_group_fails() {
    let groups = vec![group(42, "some/other")];
    let tokens = toks(&["org", "group", "project"]);
    assert!(matches!(
        resolve_groups(&groups, &tokens),
        Resolution::NoContainingGroup
    ));
}

#[test]
fn project_not_in_group_listing_fails() {
    let projects = vec![project(7, "org/group/unrelated")];
    let tokens = toks(&["org", "group", "project"]);
    assert!(find_project(&projects, &tokens).is_none());
}

#[test]
fn first_matching_entry_wins() {
    let groups = vec![group(1, "org/group"), group(2, "org/group")];
    let tokens = toks(&["org", "group"]);
    match resolve_groups(&groups, &tokens) {
        Resolution::Group(m) => assert_eq!(m.id, 1),
        other => panic!("expected a group, got {:?}", other),
    }
}

#[test]
fn pages_merge_in_page_order() {
    let pages = vec![vec![1, 2], vec![3], vec![], vec![4, 5, 6]];
    assert_eq!(merge_pages(pages), vec![1, 2, 3, 4, 5, 6]);

    let pages = vec![
        vec!["a".to_string()],
        vec!["b".to_string(), "c".to_string()],
    ];
    assert_eq!(
        merge_pages(pages),
        vec!["a".to_string(), "b".to_string(), "c".to_string()]
    );
}

#[test]
fn page_count_header_is_required() {
    assert_eq!(total_pages(None), Err(GapiError::NotPaged));
    assert_eq!(total_pages(Some(&"3".to_string())), Ok(3));
    assert_eq!(total_pages(Some(&"+12".to_string())), Ok(12));
    assert_eq!(
        total_pages(Some(&"abc".to_string())),
        Err(GapiError::BadPageCount)
    );
    assert_eq!(
        total_pages(Some(&"".to_string())),
        Err(GapiError::BadPageCount)
    );
    assert_eq!(
        total_pages(Some(&"99999999999999999999".to_string())),
        Err(GapiError::BadPageCount)
    );
}

#[test]
fn gapi_error_messages() {
    assert_eq!(
        GapiError::NotPaged.message(),
        "expected paged result but got something else"
    );
    assert_eq!(
        GapiError::NoContainingGroup.message(),
        "no containing group found"
    );
    assert_eq!(GapiError::NoResource.message(), "found no gitlab resource");
    assert_eq!(GapiError::BadPageCount.message(), "malformed page count");
}
