use sven::security::{is_inside_cwd, SecurityError};

fn verdict(path: &str) -> Result<(), String> {
    is_inside_cwd(path, "/home/user/project").map_err(|e| match e {
        SecurityError::Unauthorized => "unauthorized".to_string(),
        SecurityError::EmptyPath => "empty".to_string(),
        SecurityError::NormalizationError => "normalization".to_string(),
        SecurityError::Io(m) => format!("io: {}", m),
    })
}

#[test]
fn relative_paths_stay_inside() {
    assert_eq!(verdict("src/main.rs"), Ok(()));
    assert_eq!(verdict("./a/../b"), Ok(()));
    assert_eq!(verdict("a/b/../../c"), Ok(()));
    assert_eq!(verdict("."), Ok(()));
}

#[test]
fn parent_references_may_not_leave_the_start() {
    assert_eq!(verdict("../x"), Err("normalization".to_string()));
    assert_eq!(verdict("a/../../x"), Err("normalization".to_string()));
    assert_eq!(verdict("/.."), Err("normalization".to_string()));
}

#[test]
fn nothing_left_to_resolve() {
    assert_eq!(verdict("a/.."), Err("io: cannot make an empty path absolute".to_string()));
}

#[test]
fn absolute_paths_are_compared_by_components() {
    assert_eq!(verdict("/home/user/project/file"), Ok(()));
    assert_eq!(verdict("/home/user/project"), Ok(()));
    assert_eq!(verdict("/home/user//project/./x"), Ok(()));
    assert_eq!(verdict("/home/user/projectx"), Err("unauthorized".to_string()));
    assert_eq!(verdict("/etc/passwd"), Err("unauthorized".to_string()));
    assert_eq!(verdict("/home/user/project/../other"), Err("unauthorized".to_string()));
    assert_eq!(verdict("/home/user"), Err("unauthorized".to_string()));
}

#[test]
fn empty_path_is_refused() {
    assert_eq!(verdict(""), Err("empty".to_string()));
}

#[test]
fn security_messages() {
    assert_eq!(SecurityError::Unauthorized.message(), "The request was not authorized");
    assert_eq!(SecurityError::EmptyPath.message(), "The given Path was an empty String");
    assert_eq!(
        SecurityError::NormalizationError.message(),
        "parent reference `..` points outside of base directory"
    );
    assert_eq!(SecurityError::Io("disk".to_string()).message(), "disk");
}

#[test]
fn resolved_paths_are_judged_by_components() {
    let cwd = "/home/user/project";
    assert!(is_inside_cwd("/home/user/project/src/main.rs", cwd).is_ok());
    assert!(is_inside_cwd("/home/user/project", cwd).is_ok());
    // where a link inside the project really leads
    assert!(matches!(is_inside_cwd("/etc/passwd", cwd), Err(SecurityError::Unauthorized)));
    assert!(matches!(is_inside_cwd("/home/user/project-other/x", cwd), Err(SecurityError::Unauthorized)));
    assert!(matches!(is_inside_cwd("/", cwd), Err(SecurityError::Unauthorized)));
    assert!(is_inside_cwd("/anything", "/").is_ok());
}
