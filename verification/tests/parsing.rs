use ruggit::uri_meta::{
    from_web, make_url, parse_domain, parse_source, parse_tokens, Resource, Source, UriError,
    UriMeta,
};

const URLS: [&str; 8] = [
    "git@gitlab.com:org/group/project.git",
    "malformed.git",
    "git@gitlab.com:org",
    "git@gitlab.com:org/",
    "git@gitlab.com:org/group/subgroup/project.git",
    "gitlab.com/foo",
    "gitlab.com:foo/bar",
    "gitlab.selfhosted.com/foo/bar",
];

#[test]
fn test_parse_domain() {
    let to_parse = vec![
        (URLS[0], Some("gitlab.com".to_string())),
        (URLS[1], None),
        (URLS[2], Some("gitlab.com".to_string())),
        (URLS[3], Some("gitlab.com".to_string())),
        (URLS[4], Some("gitlab.com".to_string())),
        (URLS[5], Some("gitlab.com".to_string())),
        (URLS[6], Some("gitlab.com".to_string())),
        (URLS[7], Some("gitlab.selfhosted.com".to_string())),
    ];

    for (url, expected) in to_parse.into_iter() {
        let result = parse_domain(url);
        assert_eq!(
            expected, result,
            "{} parsed unexpectedly to: {:?}",
            url, result
        );
    }
}

#[test]
fn test_parse_tokens() {
    let scenarios = vec![
        (
            URLS[0],
            Some(
                vec!["org", "group", "project"]
                    .into_iter()
                    .map(|x| x.to_string())
                    .collect(),
            ),
        ),
        (URLS[1], None),
        (URLS[2], Some(vec!["org".to_string()])),
        (URLS[3], Some(vec!["org".to_string()])),
        (
            URLS[4],
            Some(
                vec!["org", "group", "subgroup", "project"]
                    .into_iter()
                    .map(|x| x.to_string())
                    .collect(),
            ),
        ),
        (URLS[5], Some(vec!["foo".to_string()])),
        (
            URLS[6],
            Some(
                vec!["foo", "bar"]
                    .into_iter()
                    .map(|x| x.to_string())
                    .collect(),
            ),
        ),
        (
            URLS[7],
            Some(
                vec!["foo", "bar"]
                    .into_iter()
                    .map(|x| x.to_string())
                    .collect(),
            ),
        ),
    ];
    for (url, expected) in scenarios {
        let result = parse_tokens(url);
        assert_eq!(
            result, expected,
            "{} parsed unexpectedly to: {:?}",
            url, result
        );
    }
}

#[test]
fn test_parse_source() {
    let home = "/home/user".to_string();
    assert_eq!(
        parse_source("gitlab.com/org/foo", Some(&home)),
        Source::Web("gitlab.com/org/foo".to_string()),
        "failed to parse web url"
    );
    assert_eq!(
        parse_source("gitlab.com:org/foo", Some(&home)),
        Source::Web("gitlab.com/org/foo".to_string()),
        "failed to parse web url"
    );
    assert_eq!(
        parse_source("gitlab.com:org/foo.git", Some(&home)),
        Source::Web("gitlab.com/org/foo.git".to_string()),
        "failed to parse web url"
    );
    assert_eq!(
        parse_source("~/git/foo", Some(&home)),
        Source::Disk(home.clone() + "/git/foo"),
        "failed to parse disk path"
    );
}

#[test]
fn parse_source_without_home_keeps_tilde() {
    assert_eq!(
        parse_source("~/git/foo", None),
        Source::Disk("~/git/foo".to_string())
    );
}

#[test]
fn tilde_expansion_is_leading_only() {
    let home = "/home/user".to_string();
    assert_eq!(
        parse_source("a~b", Some(&home)),
        Source::Disk("a~b".to_string())
    );
    assert_eq!(
        parse_source("~/x~y", Some(&home)),
        Source::Disk("/home/user/x~y".to_string())
    );
}

#[test]
fn colon_rewrite_only_after_domain() {
    assert_eq!(
        parse_source("gitlab.com/a:b", None),
        Source::Web("gitlab.com/a:b".to_string())
    );
    assert_eq!(
        parse_source("gitlab.com:a:b", None),
        Source::Web("gitlab.com/a:b".to_string())
    );
}

#[test]
fn domain_idempotent_across_forms() {
    let a = parse_domain("git@gitlab.com:org/repo.git");
    let b = parse_domain("gitlab.com/org/repo");
    assert_eq!(a, Some("gitlab.com".to_string()));
    assert_eq!(a, b);
}

#[test]
fn no_tokens_fails_resolution() {
    assert_eq!(parse_tokens("malformed.git"), None);
    assert_eq!(parse_tokens("gitlab.com"), None);
    assert_eq!(parse_tokens("gitlab.com/"), None);
    assert!(matches!(from_web("malformed.git"), Err(UriError::NoDomain)));
    assert!(matches!(from_web("gitlab.com/"), Err(UriError::NoTokens)));
}

#[test]
fn from_web_builds_identifier_and_url() {
    let m = from_web("git@gitlab.com:org/group/project.git").unwrap();
    assert_eq!(m.domain, "gitlab.com");
    assert_eq!(m.tokens, vec!["org", "group", "project"]);
    assert_eq!(m.identifier, "org/group/project");
    assert_eq!(m.url, "gitlab.com/org/group/project");
    assert_eq!(m.resource, None);
}

#[test]
fn reparsing_canonical_url_is_stable() {
    let m = from_web("git@gitlab.com:org/group/project.git").unwrap();
    let m2 = from_web(&m.url).unwrap();
    assert_eq!(m.domain, m2.domain);
    assert_eq!(m.tokens, m2.tokens);
    assert_eq!(m.identifier, m2.identifier);
    assert_eq!(m.url, m2.url);
}

#[test]
fn urimeta_new_marks_disk_as_repo() {
    let disk = Source::Disk("git@gitlab.com:org/repo.git".to_string());
    let m = UriMeta::new(&disk).unwrap();
    assert_eq!(m.resource, Some(Resource::Repo));
    assert_eq!(m.identifier, "org/repo");

    let web = Source::Web("gitlab.com/org/repo".to_string());
    let m = UriMeta::new(&web).unwrap();
    assert_eq!(m.resource, None);
    assert_eq!(m.identifier, "org/repo");
}

#[test]
fn make_url_joins_domain_and_tokens() {
    let tokens = vec!["org".to_string(), "repo".to_string()];
    assert_eq!(make_url("gitlab.com", &tokens), "gitlab.com/org/repo");
}

#[test]
fn uri_error_messages() {
    assert_eq!(UriError::NoDomain.message(), "unable to parse domain");
    assert_eq!(UriError::NoTokens.message(), "unable to parse tokens");
}
