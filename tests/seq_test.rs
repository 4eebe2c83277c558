use feeq::seq::{basename, find_head, infer_membership, resolve_head, select_head, HeadSource};
use feeq::{Config, Error};

fn path_helper(paths: &[&str]) -> Vec<String> {
    paths.iter().map(|p| p.to_string()).collect()
}

fn names(items: &[&str]) -> Vec<String> {
    items.iter().map(|p| p.to_string()).collect()
}

#[test]
fn infer_membership_test() {
    let conf = Config::default();
    assert_eq!(None, infer_membership(&conf, "abc"));
    assert_eq!(Some("a".to_string()), infer_membership(&conf, "a_bc"));
    assert_eq!(None, infer_membership(&conf, "_bc"));
    assert_eq!(None, infer_membership(&conf, "a_"));
}

#[test]
fn find_head_from_path_test() {
    let conf = Config::default();
    assert_eq!(Err(Error::NoInputFiles), find_head(&conf, &path_helper(&[])), "No inputs");
    assert_eq!(Ok("a".to_owned()), find_head(&conf, &path_helper(&["/foo/a"])), "Single path");
    assert_eq!(
        Ok("a".to_owned()),
        find_head(&conf, &path_helper(&["/foo/a", "/foo/b"])),
        "Two paths in order"
    );
    assert_eq!(
        Ok("a".to_owned()),
        find_head(&conf, &path_helper(&["/foo/b", "/foo/a"])),
        "Two paths out of order"
    );
    assert_eq!(Ok("a".to_owned()), find_head(&conf, &path_helper(&["b", "a"])), "Bare names");
    assert_eq!(
        Ok("a".to_owned()),
        find_head(&conf, &path_helper(&["b", "/foo/a"])),
        "Mixed path and name"
    );
}

#[test]
fn find_head_from_infer_test() {
    let conf = Config::default();
    assert_eq!(Ok("a".to_owned()), find_head(&conf, &path_helper(&["/foo/a_b", "/foo/c"])));

    // Decoy sequence heads
    assert_eq!(Ok("a".to_owned()), find_head(&conf, &path_helper(&["/foo/a", "/foo/b_"])));
    assert_eq!(Ok("_a".to_owned()), find_head(&conf, &path_helper(&["/foo/_a", "/foo/a"])));

    // Two sequences mixed: the conflict names the distinct prefixes.
    assert_eq!(
        Err(Error::MultipleOtherHeads(names(&["a", "c"]))),
        find_head(&conf, &path_helper(&["/foo/a_actual", "/foo/c_actual", "/foo/d"]))
    );
    assert_eq!(
        Err(Error::MultipleOtherHeads(names(&["a", "b", "c"]))),
        find_head(&conf, &path_helper(&["a_actual", "b_actual", "c_actual", "d"]))
    );
}

#[test]
fn least_basename_is_head() {
    let conf = Config::default();
    assert_eq!(Ok("a".to_owned()), find_head(&conf, &path_helper(&["b", "a"])));
    assert_eq!(Ok("a".to_owned()), find_head(&conf, &path_helper(&["/x/b.txt", "/y/a.txt", "/z/c"])));
    // Upper case letters sort before lower case ones.
    assert_eq!(Ok("B".to_owned()), find_head(&conf, &path_helper(&["a", "B"])));
    // A proper prefix sorts first.
    assert_eq!(Ok("ab".to_owned()), find_head(&conf, &path_helper(&["abc", "ab"])));
}

#[test]
fn single_inference_wins() {
    let conf = Config::default();
    assert_eq!(
        Ok("a".to_owned()),
        find_head(&conf, &path_helper(&["/foo/a_1.txt", "/foo/3.txt", "/foo/a_2.txt"]))
    );
    // The same prefix carried by several files is no conflict.
    assert_eq!(Ok("z".to_owned()), find_head(&conf, &path_helper(&["z_1", "z_2", "a", "b"])));
}

#[test]
fn conflicting_prefixes_are_reported() {
    let conf = Config::default();
    assert_eq!(
        Err(Error::MultipleOtherHeads(names(&["a", "c"]))),
        find_head(&conf, &path_helper(&["/foo/a_actual.txt", "/foo/c_actual.txt", "/foo/d.txt"]))
    );
    // Reported in ascending order, each once.
    assert_eq!(
        Err(Error::MultipleOtherHeads(names(&["a", "c"]))),
        find_head(&conf, &path_helper(&["c_1", "a_1", "c_2", "a_2"]))
    );
}

#[test]
fn empty_input_has_no_head() {
    let conf = Config::default();
    assert_eq!(Err(Error::NoInputFiles), find_head(&conf, &Vec::new()));
    assert!(matches!(resolve_head(&conf, &Vec::new()), Err(Error::NoInputFiles)));
}

#[test]
fn unusable_path_is_reported_first() {
    let conf = Config::default();
    assert_eq!(
        Err(Error::UnusableFilename("/foo/..".to_string())),
        find_head(&conf, &path_helper(&["a", "/foo/..", "/"]))
    );
    assert_eq!(Err(Error::UnusableFilename("/".to_string())), find_head(&conf, &path_helper(&["/"])));
}

#[test]
fn basename_stops_at_first_dot() {
    assert_eq!(Ok("archive".to_string()), basename("/tmp/archive.tar.gz"));
    assert_eq!(Ok("plain".to_string()), basename("dir/plain"));
    assert_eq!(Ok("".to_string()), basename("/tmp/.hidden"));
    assert_eq!(Err(Error::UnusableFilename("..".to_string())), basename(".."));
}

#[test]
fn multi_char_separator() {
    let mut conf = Config::default();
    conf.separator = "--".to_string();
    assert_eq!(Some("ab".to_string()), infer_membership(&conf, "ab--c--d"));
    assert_eq!(None, infer_membership(&conf, "a-b"));
    assert_eq!(None, infer_membership(&conf, "--x"));
    assert_eq!(None, infer_membership(&conf, "x--"));
    assert_eq!(None, infer_membership(&conf, "a_b"));
}

#[test]
fn head_source_is_recorded() {
    let conf = Config::default();
    let head = resolve_head(&conf, &path_helper(&["/p/b.txt", "/q/a.txt", "/r/a.md"])).unwrap();
    assert_eq!("a", head.name);
    assert!(matches!(head.source, HeadSource::LeastBasename(ref p) if p == "/q/a.txt"));

    let head = resolve_head(&conf, &path_helper(&["/p/x.txt", "/q/s_1.txt", "/r/s_2.txt"])).unwrap();
    assert_eq!("s", head.name);
    assert!(matches!(head.source, HeadSource::InferredMember(ref p) if p == "/q/s_1.txt"));
}

#[test]
fn forced_prefix_bypasses_resolution() {
    let mut conf = Config::default();
    conf.force_prefix = Some("zz".to_string());
    let head = select_head(&conf, &path_helper(&["a_1", "b_1"])).unwrap();
    assert_eq!("zz", head.name);
    assert!(matches!(head.source, HeadSource::Forced));
    let head = select_head(&conf, &Vec::new()).unwrap();
    assert_eq!("zz", head.name);
}

#[test]
fn default_config() {
    let conf = Config::default();
    assert!(conf.show_plan);
    assert!(conf.execute_plan);
    assert_eq!("_", conf.separator);
    assert_eq!(None, conf.force_prefix);
}
