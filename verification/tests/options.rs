use release_order::options::Options;

#[test]
fn options_keep_the_given_path() {
    let options = Options::new("workspace/root".to_string());
    assert_eq!(options.path, "workspace/root");
}

#[test]
fn options_default_to_the_current_directory() {
    let options = Options::current_dir();
    assert_eq!(options.path, ".");
}
