use verdiff::artifact::parse_artifact;

#[test]
fn plain_maven_coordinates() {
    let (g, a, hosted, repo) = parse_artifact("org.example/my-lib");
    assert_eq!(g, "org.example");
    assert_eq!(a, "my-lib");
    assert!(!hosted);
    assert!(repo.is_none());

    let (g, a, hosted, _) = parse_artifact("org.example:my-lib");
    assert_eq!(g, "org.example");
    assert_eq!(a, "my-lib");
    assert!(!hosted);
}

#[test]
fn owner_and_repository_without_dots() {
    let (g, a, hosted, repo) = parse_artifact("someowner/somerepo");
    assert_eq!(g, "someowner");
    assert_eq!(a, "somerepo");
    assert!(hosted);
    assert!(repo.is_none());
}

#[test]
fn hosting_url() {
    let (g, a, hosted, _) = parse_artifact("https://github.com/someowner/somerepo");
    assert_eq!(g, "someowner");
    assert_eq!(a, "somerepo");
    assert!(hosted);
    let (g, a, hosted, _) = parse_artifact("https://github.com/someowner/somerepo/");
    assert_eq!(g, "someowner");
    assert_eq!(a, "somerepo");
    assert!(hosted);
}

#[test]
fn central_browser_url() {
    let (g, a, hosted, repo) =
        parse_artifact("https://central.sonatype.com/artifact/org.example/my-lib");
    assert_eq!(g, "org.example");
    assert_eq!(a, "my-lib");
    assert!(!hosted);
    assert!(repo.is_none());
}

#[test]
fn default_repository_url() {
    // The generic repository-URL rule fires first and recovers the default
    // repository as the base.
    let (g, a, hosted, repo) =
        parse_artifact("https://repo1.maven.org/maven2/org/example/sub/my-lib/");
    assert_eq!(g, "org.example.sub");
    assert_eq!(a, "my-lib");
    assert!(!hosted);
    assert_eq!(repo.as_deref(), Some("https://repo1.maven.org/maven2"));
}

#[test]
fn custom_repository_url_recovers_the_base() {
    let (g, a, hosted, repo) = parse_artifact(
        "https://maven.example.net/nexus/content/repositories/things/com/acme/starter/",
    );
    assert_eq!(g, "com.acme");
    assert_eq!(a, "starter");
    assert!(!hosted);
    assert_eq!(
        repo.as_deref(),
        Some("https://maven.example.net/nexus/content/repositories/things")
    );
}

#[test]
fn an_unrecognized_argument_names_itself_twice() {
    let (g, a, hosted, repo) = parse_artifact("just-a-name");
    assert_eq!(g, "just-a-name");
    assert_eq!(a, "just-a-name");
    assert!(!hosted);
    assert!(repo.is_none());
}
