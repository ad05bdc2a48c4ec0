use realize::fs::{Action, File, LinkEnd, Observation};
use realize::resource::{Key, Resource, UnresolvedResource};
use realize::run::{Outcome, Step};
use realize::util::sha1;
use realize::Reality;
use std::cmp::Ordering;

#[test]
fn it_works() {}

fn paths(reality: &Reality<File>) -> Vec<String> {
    reality.resources().iter().map(|f| f.path().clone()).collect()
}

#[test]
fn sha1_of_hello() {
    assert_eq!(sha1(b"hello"), "aaf4c61ddcc5e8a2dabede0f3b482cd9aea9434d");
    assert_eq!(sha1(b""), "da39a3ee5e6b4b0d3255bfef95601890afd80709");
}

#[test]
fn key_text_of_each_variant() {
    let list = Key::List(vec![
        Key::String("a".to_string()),
        Key::Path("/x".to_string()),
    ]);
    assert_eq!(list.to_text(), "[\"a\", \"/x\"]");
    let fields = Key::fields(vec![
        ("name".to_string(), Key::String("n".to_string())),
        ("items".to_string(), Key::List(vec![])),
    ]);
    assert_eq!(fields.to_text(), "{items: [], name: \"n\"}");
    assert_eq!(Key::String("q\"".to_string()).to_text(), "\"q\\\"\"");
}

#[test]
fn key_equality() {
    let a = Key::List(vec![Key::Path("/a".to_string())]);
    let b = Key::List(vec![Key::Path("/a".to_string())]);
    let c = Key::List(vec![Key::String("/a".to_string())]);
    assert!(a == b);
    assert!(a != c);
    assert!(Key::fields(vec![]) != Key::List(vec![]));
}

#[test]
fn file_describe() {
    let f = File::at("/tmp/test").contains_str("hello");
    assert_eq!(f.describe(), "file \"/tmp/test\" with sha1 aaf4c61d");
    assert_eq!(File::at("/d").is_dir().describe(), "directory \"/d\"");
    assert_eq!(File::at("/l").points_to("/t").describe(), "symlink \"/l\" with target \"/t\"");
    assert_eq!(File::at("/g").is_absent().describe(), "absent \"/g\"");
    assert_eq!(File::at("/f").describe(), "file \"/f\"");
    assert!(f.key() == Key::Path("/tmp/test".to_string()));
    assert_eq!(f.kind(), "file");
}

#[test]
fn file_equality() {
    assert!(File::at("/a").contains_str("x").equals(&File::at("/a").contains(b"x".to_vec())));
    assert!(!File::at("/a").contains_str("x").equals(&File::at("/a").contains_str("y")));
    assert!(!File::at("/a").is_dir().equals(&File::at("/b").is_dir()));
    assert!(!File::at("/a").is_dir().equals(&File::at("/a").is_file()));
}

#[test]
fn implicit_prerequisite_is_parent_dir() {
    let pre = File::at("a/b").implicit_ensure();
    assert_eq!(pre.len(), 1);
    assert_eq!(pre[0].path(), "a");
    assert_eq!(pre[0].describe(), "directory \"a\"");
    assert_eq!(File::at("a").implicit_ensure().len(), 0);
    assert_eq!(File::at("/").implicit_ensure().len(), 0);
}

#[test]
fn nested_prerequisites_registered_in_order() {
    let mut reality = Reality::new();
    reality.ensure(File::at("a/b/c").contains_str("x"));
    assert_eq!(paths(&reality), vec!["a", "a/b", "a/b/c"]);
    assert_eq!(reality.resources()[0].describe(), "directory \"a\"");
    assert_eq!(reality.resources()[1].describe(), "directory \"a/b\"");
    assert!(reality.duplicates().is_empty());
}

#[test]
fn absolute_path_registers_root() {
    let mut reality = Reality::new();
    reality.ensure(File::at("/tmp/test").contains_str("hello"));
    assert_eq!(paths(&reality), vec!["/", "/tmp", "/tmp/test"]);
}

#[test]
fn equal_declarations_leave_one_entry() {
    let mut reality = Reality::new();
    for _ in 0..3 {
        reality.ensure(File::at("a/b").is_dir());
    }
    assert_eq!(paths(&reality), vec!["a", "a/b"]);
    assert!(reality.duplicates().is_empty());
}

#[test]
fn conflicting_declaration_keeps_first() {
    let mut reality = Reality::new();
    reality.ensure(File::at("x").contains_str("one"));
    reality.ensure(File::at("x").contains_str("two"));
    assert_eq!(paths(&reality), vec!["x"]);
    assert!(reality.resources()[0].equals(&File::at("x").contains_str("one")));
    let notes = reality.duplicates();
    assert_eq!(notes.len(), 1);
    assert_eq!(notes[0].key, "\"x\"");
    assert_eq!(notes[0].old, File::at("x").contains_str("one").describe());
    assert_eq!(notes[0].new, File::at("x").contains_str("two").describe());
}

#[test]
fn prerequisite_precedes_dependent() {
    let mut reality = Reality::new();
    reality.ensure(File::at("p/q").is_file());
    reality.ensure(File::at("p").is_dir());
    let ps = paths(&reality);
    let dir = ps.iter().position(|p| p == "p").unwrap();
    let file = ps.iter().position(|p| p == "p/q").unwrap();
    assert!(dir < file);
    assert!(reality.duplicates().is_empty());
}

#[test]
fn reality_key_lists_member_keys() {
    let mut reality = Reality::new();
    reality.ensure(File::at("a/b"));
    assert!(reality.key() == Key::List(vec![Key::Path("a".to_string()), Key::Path("a/b".to_string())]));
    assert_eq!(reality.key().to_text(), "[\"a\", \"a/b\"]");
    assert_eq!(reality.describe(), "reality");
}

fn three_members() -> Reality<File> {
    let mut reality = Reality::new();
    reality.ensure(File::at("/m1").is_dir());
    reality.ensure(File::at("/m2").is_dir());
    reality.ensure(File::at("/m3").is_dir());
    reality
}

#[test]
fn realize_stops_at_first_failure() {
    let reality = three_members();
    assert_eq!(paths(&reality), vec!["/", "/m1", "/m2", "/m3"]);
    let mut realized = Vec::new();
    let mut step = reality.first_step();
    loop {
        step = match step {
            Step::Verify(i) => reality.after_verify(i, Ok(i == 0)),
            Step::Realize(i) => {
                realized.push(i);
                let outcome = if i == 2 { Err("boom".to_string()) } else { Ok(()) };
                reality.after_realize(i, outcome)
            }
            Step::Done(_) => break,
        };
    }
    assert_eq!(realized, vec![0, 1, 2]);
    match step {
        Step::Done(Outcome::Failed(f)) => {
            assert_eq!(f.member, 2);
            assert_eq!(f.context, "Could not realize directory \"/m2\"");
            assert_eq!(f.cause, "boom");
            assert_eq!(f.run_context, "Could not apply the configuration");
        }
        _ => panic!("expected a failure"),
    }
}

#[test]
fn verify_stops_at_first_false() {
    let mut reality = Reality::new();
    reality.ensure(File::at("m1").is_dir());
    reality.ensure(File::at("m2").is_dir());
    reality.ensure(File::at("m3").is_dir());
    let mut verified = Vec::new();
    let mut step = reality.first_step();
    while let Step::Verify(i) = step {
        verified.push(i);
        step = reality.after_verify(i, Ok(i != 0));
    }
    assert_eq!(verified, vec![0]);
    assert!(matches!(step, Step::Realize(0)));
}

#[test]
fn all_verified_is_converged() {
    let reality = three_members();
    let mut step = reality.first_step();
    let mut checked = 0;
    while let Step::Verify(i) = step {
        checked += 1;
        step = reality.after_verify(i, Ok(true));
    }
    assert_eq!(checked, 4);
    assert!(matches!(step, Step::Done(Outcome::Converged)));
    let empty: Reality<File> = Reality::new();
    assert!(matches!(empty.first_step(), Step::Done(Outcome::Converged)));
}

#[test]
fn realize_all_is_applied() {
    let reality = three_members();
    assert!(matches!(reality.after_realize(3, Ok(())), Step::Done(Outcome::Applied)));
    assert!(matches!(reality.after_realize(0, Ok(())), Step::Realize(1)));
}

#[test]
fn verify_error_names_member() {
    let reality = three_members();
    match reality.after_verify(1, Err("denied".to_string())) {
        Step::Done(Outcome::Failed(f)) => {
            assert_eq!(f.member, 1);
            assert_eq!(f.context, "Could not verify directory \"/m1\"");
            assert_eq!(f.cause, "denied");
            assert_eq!(f.run_context, "Could not apply the configuration");
        }
        _ => panic!("expected a failure"),
    }
}

#[test]
fn round_trip_contents() {
    let f = File::at("/tmp/rt").contains_str("hello");
    assert!(f.needs_contents());
    assert!(!f.verify_observed(&Observation::Missing));
    let written = match f.plan(&Observation::Missing) {
        Action::Write(bytes) => bytes,
        _ => panic!("expected a write"),
    };
    assert_eq!(written, b"hello".to_vec());
    let found = Observation::File { contents: Some(written) };
    assert!(f.verify_observed(&found));
    let changed = File::at("/tmp/rt").contains_str("hello2");
    assert!(!changed.verify_observed(&found));
    match changed.plan(&found) {
        Action::Write(bytes) => assert_eq!(bytes, b"hello2".to_vec()),
        _ => panic!("expected a write"),
    }
}

#[test]
fn verify_each_kind() {
    assert!(File::at("/a").is_absent().verify_observed(&Observation::Missing));
    assert!(!File::at("/a").is_absent().verify_observed(&Observation::Dir));
    assert!(File::at("/a").is_dir().verify_observed(&Observation::Dir));
    assert!(!File::at("/a").is_dir().verify_observed(&Observation::Missing));
    assert!(File::at("/a").verify_observed(&Observation::File { contents: None }));
    assert!(!File::at("/a").verify_observed(&Observation::Other));
    let link = File::at("/l").points_to("/t");
    assert!(link.verify_observed(&Observation::Symlink { target: "/t".to_string(), leads_to: LinkEnd::Missing }));
    assert!(!link.verify_observed(&Observation::Symlink { target: "/u".to_string(), leads_to: LinkEnd::Missing }));
    assert!(!File::at("/a").contains_str("x").verify_observed(&Observation::File { contents: None }));
    assert!(!File::at("/a").is_file().needs_contents());
}

#[test]
fn plan_each_kind() {
    let absent = File::at("/a").is_absent();
    assert!(matches!(absent.plan(&Observation::Dir), Action::RemoveDir));
    assert!(matches!(absent.plan(&Observation::File { contents: None }), Action::RemoveFile));
    assert!(matches!(absent.plan(&Observation::Missing), Action::Nothing));
    assert!(matches!(File::at("/d").is_dir().plan(&Observation::Missing), Action::CreateDirAll));
    assert!(matches!(File::at("/d").is_dir().plan(&Observation::Dir), Action::Nothing));
    let link = File::at("/l").points_to("/t");
    match link.plan(&Observation::Missing) {
        Action::Symlink(t) => assert_eq!(t, "/t"),
        _ => panic!("expected a symlink"),
    }
    assert!(matches!(link.plan(&Observation::Symlink { target: "/t".to_string(), leads_to: LinkEnd::Missing }), Action::Nothing));
    match File::at("/f").plan(&Observation::Missing) {
        Action::Write(bytes) => assert!(bytes.is_empty()),
        _ => panic!("expected a write"),
    }
    assert!(matches!(File::at("/f").plan(&Observation::File { contents: None }), Action::Nothing));
}

#[test]
fn fields_are_held_in_name_order() {
    let a = Key::fields(vec![
        ("b".to_string(), Key::String("2".to_string())),
        ("a".to_string(), Key::String("1".to_string())),
    ]);
    let b = Key::fields(vec![
        ("a".to_string(), Key::String("1".to_string())),
        ("b".to_string(), Key::String("2".to_string())),
    ]);
    assert!(a == b);
    assert_eq!(a.to_text(), "{a: \"1\", b: \"2\"}");
    let later_wins = Key::fields(vec![
        ("a".to_string(), Key::String("old".to_string())),
        ("a".to_string(), Key::String("new".to_string())),
    ]);
    assert_eq!(later_wins.to_text(), "{a: \"new\"}");
    assert_eq!(Key::fields(vec![]).to_text(), "{}");
}

#[test]
fn key_order() {
    let s = |t: &str| Key::String(t.to_string());
    assert_eq!(s("a").compare(&s("b")), Ordering::Less);
    assert_eq!(s("b").compare(&s("a")), Ordering::Greater);
    assert_eq!(s("ab").compare(&s("a")), Ordering::Greater);
    assert_eq!(s("a").compare(&s("a")), Ordering::Equal);
    assert_eq!(Key::List(vec![]).compare(&s("a")), Ordering::Less);
    assert_eq!(Key::Path("a".to_string()).compare(&s("z")), Ordering::Greater);
    assert_eq!(Key::fields(vec![]).compare(&Key::List(vec![])), Ordering::Less);
    assert_eq!(
        Key::List(vec![s("a"), s("c")]).compare(&Key::List(vec![s("a"), s("b")])),
        Ordering::Greater
    );
    assert_eq!(
        Key::List(vec![s("a")]).compare(&Key::List(vec![s("a"), s("b")])),
        Ordering::Less
    );
}

#[test]
fn symlink_elsewhere_is_replaced() {
    let link = File::at("/l").points_to("/t");
    match link.plan(&Observation::Symlink { target: "/u".to_string(), leads_to: LinkEnd::Missing }) {
        Action::ReplaceFileWithSymlink(t) => assert_eq!(t, "/t"),
        _ => panic!("expected a replacement"),
    }
    match link.plan(&Observation::File { contents: None }) {
        Action::ReplaceFileWithSymlink(t) => assert_eq!(t, "/t"),
        _ => panic!("expected a replacement"),
    }
    match link.plan(&Observation::Dir) {
        Action::ReplaceDirWithSymlink(t) => assert_eq!(t, "/t"),
        _ => panic!("expected a replacement"),
    }
}

#[test]
fn nested_prerequisites_realized_in_order() {
    let mut reality = Reality::new();
    reality.ensure(File::at("a/b/c").is_dir());
    assert_eq!(reality.resources().len(), 3);
    assert!(reality.resources()[0].equals(&File::at("a").is_dir()));
    assert!(reality.resources()[1].equals(&File::at("a/b").is_dir()));
    assert!(reality.resources()[2].equals(&File::at("a/b/c").is_dir()));
    let mut realized = Vec::new();
    let mut step = reality.first_step();
    loop {
        step = match step {
            Step::Verify(i) => reality.after_verify(i, Ok(false)),
            Step::Realize(i) => {
                realized.push(reality.resources()[i].path().clone());
                reality.after_realize(i, Ok(()))
            }
            Step::Done(_) => break,
        };
    }
    assert_eq!(realized, vec!["a", "a/b", "a/b/c"]);
    assert!(matches!(step, Step::Done(Outcome::Applied)));
}

#[test]
fn redeclaring_with_conflicting_parent_notes_each_time() {
    let mut reality = Reality::new();
    reality.ensure(File::at("a").is_file());
    reality.ensure(File::at("a/b").is_dir());
    assert_eq!(paths(&reality), vec!["a", "a/b"]);
    assert_eq!(reality.duplicates().len(), 1);
    reality.ensure(File::at("a/b").is_dir());
    assert_eq!(paths(&reality), vec!["a", "a/b"]);
    assert_eq!(reality.duplicates().len(), 2);
}

fn link_to(end: LinkEnd) -> Observation {
    Observation::Symlink { target: "/elsewhere".to_string(), leads_to: end }
}

#[test]
fn file_through_symlink_is_accepted() {
    let any = File::at("/etc/resolv.conf");
    let to_file = link_to(LinkEnd::File { contents: None });
    assert!(any.verify_observed(&to_file));
    assert!(matches!(any.plan(&to_file), Action::Nothing));
    let with = File::at("/c").contains_str("hello");
    let holding = link_to(LinkEnd::File { contents: Some(b"hello".to_vec()) });
    assert!(with.verify_observed(&holding));
    let stale = link_to(LinkEnd::File { contents: Some(b"old".to_vec()) });
    assert!(!with.verify_observed(&stale));
    match with.plan(&stale) {
        Action::Write(bytes) => assert_eq!(bytes, b"hello".to_vec()),
        _ => panic!("expected a write"),
    }
}

#[test]
fn stray_symlink_is_replaced_not_written() {
    let with = File::at("/c").contains_str("hello");
    for end in vec![LinkEnd::Missing, LinkEnd::Dir, LinkEnd::Other] {
        let obs = link_to(end);
        match with.plan(&obs) {
            Action::ReplaceLinkWithFile(bytes) => assert_eq!(bytes, b"hello".to_vec()),
            _ => panic!("expected a replacement"),
        }
    }
    let dangling = link_to(LinkEnd::Missing);
    match File::at("/f").plan(&dangling) {
        Action::ReplaceLinkWithFile(bytes) => assert!(bytes.is_empty()),
        _ => panic!("expected a replacement"),
    }
    assert!(matches!(File::at("/f").plan(&Observation::Other), Action::Nothing));
}

#[test]
fn dir_through_symlink_is_accepted() {
    let dir = File::at("/var/run").is_dir();
    let to_dir = link_to(LinkEnd::Dir);
    assert!(dir.verify_observed(&to_dir));
    assert!(matches!(dir.plan(&to_dir), Action::Nothing));
    let to_file = link_to(LinkEnd::File { contents: None });
    assert!(!dir.verify_observed(&to_file));
    assert!(matches!(dir.plan(&to_file), Action::ReplaceLinkWithDir));
}
