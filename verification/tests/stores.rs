use ruggit::cache::Cachable;
use ruggit::crypto::{CryptoError, PasswdProtectedFile};
use ruggit::gapi::{GitlabResourceMeta, GitlabVariable};
use ruggit::gitlab_cache::CachedResources;
use ruggit::token::TokenStore;

fn sample_meta() -> GitlabResourceMeta {
    GitlabResourceMeta {
        id: 17,
        full_path: None,
        path_with_namespace: Some("org/group/project".to_string()),
    }
}

fn sample_vars() -> Vec<GitlabVariable> {
    vec![
        GitlabVariable {
            key: "CI_KEY".to_string(),
            value: "secret value".to_string(),
            description: Some("a deploy key".to_string()),
        },
        GitlabVariable {
            key: "REGION".to_string(),
            value: "eu-north-1".to_string(),
            description: None,
        },
    ]
}

#[test]
fn resource_cache_roundtrip() {
    let file = PasswdProtectedFile::new("hunter2", "resources".to_string());
    let mut cache = CachedResources::new(file, None).unwrap();
    assert!(cache.list().is_empty());

    let ciphertext = cache.insert(&sample_meta(), &sample_vars()).unwrap();

    let file2 = PasswdProtectedFile::new("hunter2", "resources".to_string());
    let cache2 = CachedResources::new(file2, Some(&ciphertext)).unwrap();
    assert_eq!(cache2.list(), vec!["org/group/project".to_string()]);

    let res = cache2.get("org/group/project").unwrap();
    assert_eq!(res.meta.id, 17);
    assert_eq!(res.meta.full_path, None);
    assert_eq!(
        res.meta.path_with_namespace,
        Some("org/group/project".to_string())
    );
    assert_eq!(res.variables.len(), 2);
    assert_eq!(res.variables[0].key, "CI_KEY");
    assert_eq!(res.variables[0].value, "secret value");
    assert_eq!(res.variables[0].description, Some("a deploy key".to_string()));
    assert_eq!(res.variables[1].key, "REGION");
    assert_eq!(res.variables[1].description, None);
}

#[test]
fn resource_cache_roundtrip_non_ascii() {
    let file = PasswdProtectedFile::new("pw", "resources".to_string());
    let mut cache = CachedResources::new(file, None).unwrap();
    let meta = GitlabResourceMeta {
        id: 1,
        full_path: Some("org/grupp-\u{e5}\u{e4}\u{f6}".to_string()),
        path_with_namespace: None,
    };
    let vars = vec![GitlabVariable {
        key: "GREETING".to_string(),
        value: "h\u{e9}ll\u{f8} \u{1f600}".to_string(),
        description: None,
    }];
    let c = cache.insert(&meta, &vars).unwrap();

    let file2 = PasswdProtectedFile::new("pw", "resources".to_string());
    let cache2 = CachedResources::new(file2, Some(&c)).unwrap();
    let res = cache2.get("org/grupp-\u{e5}\u{e4}\u{f6}").unwrap();
    assert_eq!(res.meta.full_path, Some("org/grupp-\u{e5}\u{e4}\u{f6}".to_string()));
    assert_eq!(res.variables[0].value, "h\u{e9}ll\u{f8} \u{1f600}");
}

#[test]
fn wrong_passphrase_is_fatal() {
    let file = PasswdProtectedFile::new("right horse", "tokens".to_string());
    let mut store = TokenStore::new(file, None).unwrap();
    let ciphertext = store.add_token("gitlab.com", "tok-123").unwrap();

    let file2 = PasswdProtectedFile::new("wrong battery", "tokens".to_string());
    let reloaded = TokenStore::new(file2, Some(&ciphertext));
    assert!(matches!(reloaded, Err(CryptoError::DecryptError)));
}

#[test]
fn corrupt_payload_falls_back_to_empty() {
    // A valid ciphertext whose decrypted payload is not a resource map.
    let file = PasswdProtectedFile::new("pw", "resources".to_string());
    let garbage = file.write(&[0xde, 0xad, 0xbe, 0xef]).unwrap();

    let file2 = PasswdProtectedFile::new("pw", "resources".to_string());
    let cache = CachedResources::new(file2, Some(&garbage)).unwrap();
    assert!(cache.list().is_empty());
    assert!(cache.get("anything").is_none());
}

#[test]
fn absent_file_is_a_normal_first_run() {
    let file = PasswdProtectedFile::new("pw", "tokens".to_string());
    let store = TokenStore::new(file, None).unwrap();
    assert!(store.list_domains().is_empty());
    assert!(store.get("gitlab.com").is_none());
}

#[test]
fn token_store_roundtrip_and_replace() {
    let file = PasswdProtectedFile::new("pw", "tokens".to_string());
    let mut store = TokenStore::new(file, None).unwrap();
    store.add_token("gitlab.com", "first").unwrap();
    store.add_token("gitlab.selfhosted.com", "other").unwrap();
    let ciphertext = store.add_token("gitlab.com", "second").unwrap();

    assert_eq!(store.get("gitlab.com"), Some("second".to_string()));
    assert_eq!(store.get("gitlab.selfhosted.com"), Some("other".to_string()));
    assert_eq!(store.get("example.com"), None);

    let mut domains = store.list_domains();
    domains.sort();
    assert_eq!(
        domains,
        vec!["gitlab.com".to_string(), "gitlab.selfhosted.com".to_string()]
    );

    let file2 = PasswdProtectedFile::new("pw", "tokens".to_string());
    let reloaded = TokenStore::new(file2, Some(&ciphertext)).unwrap();
    assert_eq!(reloaded.get("gitlab.com"), Some("second".to_string()));
    assert_eq!(reloaded.get("gitlab.selfhosted.com"), Some("other".to_string()));
}

#[test]
fn encrypted_file_read_reports_io_when_absent() {
    let file = PasswdProtectedFile::new("pw", "somewhere".to_string());
    assert!(matches!(file.read(None), Err(CryptoError::IO)));
    assert_eq!(file.path(), "somewhere");
}

#[test]
fn crypto_error_messages() {
    assert_eq!(CryptoError::DecryptError.message(), "Decryption failed");
    assert_eq!(CryptoError::EncryptError.message(), "Encryption failed");
    assert_eq!(CryptoError::IO.message(), "IO error");
}

#[test]
fn encrypted_file_write_then_read() {
    let file = PasswdProtectedFile::new("pw", "blob".to_string());
    let plaintext = vec![0u8, 1, 2, 250, 255];
    let ciphertext = file.write(&plaintext).unwrap();
    assert_ne!(ciphertext, plaintext);
    assert_eq!(file.read(Some(&ciphertext)).unwrap(), plaintext);
}

#[test]
fn update_cache_persists_current_map() {
    let file = PasswdProtectedFile::new("pw", "tokens".to_string());
    let mut store = TokenStore::new(file, None).unwrap();
    store.add_token("gitlab.com", "tok").unwrap();
    let ciphertext = store.update_cache().unwrap();

    let file2 = PasswdProtectedFile::new("pw", "tokens".to_string());
    let reloaded = TokenStore::new(file2, Some(&ciphertext)).unwrap();
    assert_eq!(reloaded.get("gitlab.com"), Some("tok".to_string()));
}
