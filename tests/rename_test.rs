use feeq::rename::RenamePlan;
use feeq::{plan_renames, resolve_paths, Config, Error};

fn path_helper(paths: &[&str]) -> Vec<String> {
    paths.iter().map(|p| p.to_string()).collect()
}

fn pb_tuple(a: &str, b: &str) -> (String, String) {
    (a.to_string(), b.to_string())
}

#[test]
fn rename_plan_create_test() {
    let conf = Config::default();
    // Only absolute paths
    assert_eq!(
        Ok(RenamePlan(vec![pb_tuple("/foo/a.txt", "/foo/a_a.txt"), pb_tuple("/foo/b.txt", "/foo/a_b.txt")])),
        RenamePlan::create(&conf, "a", &path_helper(&["/foo/a.txt", "/foo/b.txt"]))
    );
    // Only relative paths
    assert_eq!(
        Ok(RenamePlan(vec![pb_tuple("a.txt", "a_a.txt"), pb_tuple("b.txt", "a_b.txt")])),
        RenamePlan::create(&conf, "a", &path_helper(&["a.txt", "b.txt"]))
    );
    // Both relative and absolute paths
    assert_eq!(
        Ok(RenamePlan(vec![pb_tuple("a.txt", "a_a.txt"), pb_tuple("/foo/b.txt", "/foo/a_b.txt")])),
        RenamePlan::create(&conf, "a", &path_helper(&["a.txt", "/foo/b.txt"]))
    );
    // Inferred existing prefix, merging a new file into it
    assert_eq!(
        Ok(RenamePlan(vec![pb_tuple("/foo/3.txt", "/foo/a_3.txt")])),
        RenamePlan::create(&conf, "a", &path_helper(&["/foo/a_1.txt", "/foo/3.txt", "/foo/a_2.txt"]))
    );
}

#[test]
fn rename_plan_display_test() {
    assert_eq!("Rename /foo/a to /foo/a_a\r\n", RenamePlan(vec![pb_tuple("/foo/a", "/foo/a_a")]).render());
    assert_eq!(
        "Rename /foo/a to /foo/a_a\r\nRename /foo/b to /foo/a_b\r\n",
        RenamePlan(vec![pb_tuple("/foo/a", "/foo/a_a"), pb_tuple("/foo/b", "/foo/a_b")]).render()
    );
}

#[test]
fn rendering_gives_one_line_per_rename() {
    let plan = RenamePlan(vec![pb_tuple("/x/1", "/x/s_1"), pb_tuple("/x/2", "/x/s_2"), pb_tuple("3", "s_3")]);
    let text = plan.render();
    let lines: Vec<&str> = text.split_terminator("\r\n").collect();
    assert_eq!(vec!["Rename /x/1 to /x/s_1", "Rename /x/2 to /x/s_2", "Rename 3 to s_3"], lines);
    assert_eq!("", RenamePlan(vec![]).render());
}

#[test]
fn second_plan_is_empty() {
    let conf = Config::default();
    let inputs = path_helper(&["/d/x.txt", "/d/s_y.txt", "rel/z"]);
    let first = RenamePlan::create(&conf, "s", &inputs).unwrap();
    assert_eq!(RenamePlan(vec![pb_tuple("/d/x.txt", "/d/s_x.txt"), pb_tuple("rel/z", "rel/s_z")]), first);
    let after = path_helper(&["/d/s_x.txt", "/d/s_y.txt", "rel/s_z"]);
    assert_eq!(Ok(RenamePlan(vec![])), RenamePlan::create(&conf, "s", &after));
}

#[test]
fn already_named_files_are_skipped() {
    let conf = Config::default();
    assert_eq!(
        Ok(RenamePlan(vec![])),
        RenamePlan::create(&conf, "a", &path_helper(&["/foo/a_1.txt", "a_2"]))
    );
    // A file of another sequence is renamed all the same.
    assert_eq!(
        Ok(RenamePlan(vec![pb_tuple("/foo/b_1.txt", "/foo/a_b_1.txt")])),
        RenamePlan::create(&conf, "a", &path_helper(&["/foo/b_1.txt"]))
    );
}

#[test]
fn plan_keeps_input_order() {
    let conf = Config::default();
    assert_eq!(
        Ok(RenamePlan(vec![pb_tuple("c", "p_c"), pb_tuple("a", "p_a"), pb_tuple("b", "p_b")])),
        RenamePlan::create(&conf, "p", &path_helper(&["c", "p_x", "a", "b"]))
    );
}

#[test]
fn plan_fails_on_unusable_path() {
    let conf = Config::default();
    assert_eq!(
        Err(Error::UnusableFilename("/foo/..".to_string())),
        RenamePlan::create(&conf, "a", &path_helper(&["/foo/b", "/foo/..", "/"]))
    );
}

#[test]
fn plan_renames_resolves_then_plans() {
    let conf = Config::default();
    let (head, plan) = plan_renames(&conf, &path_helper(&["/foo/a_1.txt", "/foo/3.txt", "/foo/a_2.txt"])).unwrap();
    assert_eq!("a", head.name);
    assert_eq!(RenamePlan(vec![pb_tuple("/foo/3.txt", "/foo/a_3.txt")]), plan);

    let mut forced = Config::default();
    forced.force_prefix = Some("new".to_string());
    let (head, plan) = plan_renames(&forced, &path_helper(&["/foo/a_1.txt", "/foo/b.txt"])).unwrap();
    assert_eq!("new", head.name);
    assert_eq!(
        RenamePlan(vec![pb_tuple("/foo/a_1.txt", "/foo/new_a_1.txt"), pb_tuple("/foo/b.txt", "/foo/new_b.txt")]),
        plan
    );

    assert!(matches!(plan_renames(&conf, &Vec::new()), Err(Error::NoInputFiles)));
    assert!(matches!(
        plan_renames(&conf, &path_helper(&["x_1", "y_1"])),
        Err(Error::MultipleOtherHeads(_))
    ));
}

#[test]
fn relative_inputs_are_resolved() {
    let lines = path_helper(&["foo", "/bar/foo"]);
    assert_eq!(path_helper(&["/bar/foo", "/bar/foo"]), resolve_paths("/bar", &lines));
    assert_eq!(Vec::<String>::new(), resolve_paths("/bar", &Vec::new()));
}
