use requiem::config::Config;
use requiem::directory::{Directory, DirectoryAddError, LoadError, LoadedFile, ParentRecord, Record};
use requiem::hrid::Hrid;
use requiem::hrid_tree::{AddError, HridLinkError, HridTree, InsertError};
use requiem::index::{Index, TomlIndex, TomlKind};
use requiem::requirement::Requirement;

fn new_uuid() -> u128 {
    uuid::Uuid::new_v4().as_u128()
}

fn hrid(s: &str) -> Hrid {
    Hrid::parse(s).unwrap()
}

#[test]
fn add_and_get() {
    let mut tree = HridTree::default();
    let (uuid, hrid) = tree.add("REQ".to_string(), "requirement text".into()).unwrap();

    let (fetched_hrid, req) = tree.get(uuid).unwrap();
    assert_eq!(fetched_hrid, &hrid);
    assert_eq!(req.content(), "requirement text");

    let (fetched_uuid, req2) = tree.get_by_hrid(&hrid).unwrap();
    assert_eq!(fetched_uuid, uuid);
    assert_eq!(req2.content(), "requirement text");
}

#[test]
fn get_missing_returns_none() {
    let tree = HridTree::default();
    let hrid = Hrid::new("REQ".to_string(), 999).unwrap();
    let uuid = new_uuid();

    assert!(tree.get(uuid).is_none());
    assert!(tree.get_by_hrid(&hrid).is_none());
}

#[test]
fn adding_three_then_after_a_loaded_five() {
    let mut tree = HridTree::new();
    let mut names = Vec::new();
    for _ in 0..3 {
        let (_, h) = tree.add("REQ".to_string(), String::new()).unwrap();
        names.push(h.to_string());
    }
    assert_eq!(names, ["REQ-001", "REQ-002", "REQ-003"]);

    let mut tree = HridTree::new();
    let loaded = Requirement::new(new_uuid(), hrid("REQ-005"), String::new());
    tree.insert(loaded).unwrap();
    let (_, h) = tree.add("REQ".to_string(), String::new()).unwrap();
    assert_eq!(h.to_string(), "REQ-006");
}

#[test]
fn add_errors() {
    let mut tree = HridTree::new();
    assert_eq!(tree.add(String::new(), String::new()).unwrap_err(), AddError::InvalidKind);
    assert_eq!(tree.add("A-B".to_string(), String::new()).unwrap_err(), AddError::InvalidKind);
    let taken = new_uuid();
    tree.add_with_uuid("REQ".to_string(), String::new(), String::new(), taken).unwrap();
    assert_eq!(
        tree.add_with_uuid("REQ".to_string(), String::new(), String::new(), taken),
        Err(AddError::UuidTaken(taken))
    );
    tree.insert(Requirement::new(new_uuid(), hrid(&format!("REQ-{}", usize::MAX)), String::new()))
        .unwrap();
    assert_eq!(tree.add("REQ".to_string(), String::new()).unwrap_err(), AddError::KindExhausted);
}

#[test]
fn insert_same_uuid_returns_previous_and_conflicting_hrid_fails() {
    let mut tree = HridTree::new();
    let u = new_uuid();
    assert!(tree.insert(Requirement::new(u, hrid("REQ-001"), "one".into())).unwrap().is_none());
    let prev = tree.insert(Requirement::new(u, hrid("REQ-001"), "two".into())).unwrap().unwrap();
    assert_eq!(prev.content(), "one");
    let other = new_uuid();
    match tree.insert(Requirement::new(other, hrid("REQ-001"), "three".into())) {
        Err(InsertError::HridConflict(h)) => assert_eq!(h, hrid("REQ-001")),
        Ok(_) => panic!("conflicting HRID accepted"),
    }
    assert!(tree.get(other).is_none());
}

#[test]
fn link_by_hrid_outcomes() {
    let mut tree = HridTree::new();
    let (a, ha) = tree.add("REQ".to_string(), String::new()).unwrap();
    let (b, hb) = tree.add("REQ".to_string(), String::new()).unwrap();
    let missing = hrid("REQ-099");
    assert!(matches!(tree.link_by_hrid(&missing, &ha), Err(HridLinkError::NotFound(h)) if h == missing));
    assert!(matches!(tree.link_by_hrid(&ha, &missing), Err(HridLinkError::NotFound(h)) if h == missing));
    assert!(matches!(tree.link_by_hrid(&ha, &ha), Err(HridLinkError::SelfReference(_))));
    tree.link_by_hrid(&hb, &ha).unwrap();
    assert!(matches!(
        tree.link_by_hrid(&ha, &hb),
        Err(HridLinkError::WouldCreateCycle { .. })
    ));
    assert_eq!(tree.parents(b).len(), 1);
    assert_eq!(tree.parents(b)[0].0, a);
    assert_eq!(tree.parents(a).len(), 0);
}

#[test]
fn index_bump_load_save() {
    let mut index = Index::new();
    assert_eq!(index.bump_index("REQ".to_string()), Some(1));
    assert_eq!(index.bump_index("REQ".to_string()), Some(2));
    assert_eq!(index.bump_index("SYS".to_string()), Some(1));
    let saved = index.save();
    assert_eq!(saved.kinds.len(), 2);
    assert_eq!(saved.kinds[0].0, "REQ");
    assert_eq!(saved.kinds[0].1, TomlKind { latest_id: 2 });

    let loaded = Index::load(TomlIndex {
        kinds: vec![
            ("A".to_string(), TomlKind { latest_id: 4 }),
            ("A".to_string(), TomlKind { latest_id: 2 }),
            ("B".to_string(), TomlKind { latest_id: 7 }),
        ],
    });
    assert_eq!(loaded.latest_id(&"A".to_string()), 4);
    assert_eq!(loaded.latest_id(&"B".to_string()), 7);
    assert_eq!(loaded.latest_id(&"C".to_string()), 0);

    let mut full = Index::load(TomlIndex {
        kinds: vec![("A".to_string(), TomlKind { latest_id: usize::MAX })],
    });
    assert_eq!(full.bump_index("A".to_string()), None);
}

fn record(uuid: u128, parents: Vec<ParentRecord>, content: &str) -> Record {
    Record {
        uuid,
        created: "2025-07-14T07:15:00Z".to_string(),
        tags: vec![],
        parents,
        content: content.to_string(),
    }
}

fn file(stem: &str, record: Option<Record>) -> LoadedFile {
    LoadedFile { path: format!("/root/{stem}.md"), stem: stem.to_string(), record }
}

#[test]
fn load_with_unrecognised_file() {
    let good = new_uuid();
    let files = || {
        vec![
            file("REQ-001", Some(record(good, vec![], "ok"))),
            file("not an hrid", Some(record(new_uuid(), vec![], "x"))),
        ]
    };
    let strict = Config::default();
    match Directory::load("/root".to_string(), strict, files()) {
        Err(LoadError::Unrecognised(paths)) => assert_eq!(paths, vec!["/root/not an hrid.md"]),
        _ => panic!("load should have failed"),
    }
    let lenient = Config { allow_unrecognised: true, ..Config::default() };
    let dir = Directory::load("/root".to_string(), lenient, files()).unwrap();
    assert_eq!(dir.tree().tree().uuids(), vec![good]);
}

#[test]
fn load_restores_links_by_uuid_then_by_hrid() {
    let p = new_uuid();
    let c1 = new_uuid();
    let c2 = new_uuid();
    let files = vec![
        file("P-001", Some(record(p, vec![], "parent"))),
        file(
            "C-001",
            Some(record(
                c1,
                vec![ParentRecord { uuid: p, fingerprint: "f1".into(), hrid: "P-000".into() }],
                "",
            )),
        ),
        file(
            "C-002",
            Some(record(
                c2,
                vec![ParentRecord { uuid: new_uuid(), fingerprint: "f2".into(), hrid: "P-001".into() }],
                "",
            )),
        ),
        file("C-003", None),
    ];
    let config = Config { allow_unrecognised: true, ..Config::default() };
    let mut dir = Directory::load("/root".to_string(), config, files).unwrap();
    let tree = dir.tree();
    assert_eq!(tree.parents(c1), vec![(p, "f1".to_string())]);
    assert_eq!(tree.parents(c2), vec![(p, "f2".to_string())]);
    assert_eq!(dir.update_hrids(), vec![c1]);
    let rec = dir.record_of(c1).unwrap();
    assert_eq!(rec.parents[0].hrid, "P-001");
    assert_eq!(rec.parents[0].fingerprint, "f1");
}

#[test]
fn load_rejects_duplicates() {
    let u = new_uuid();
    let files = vec![
        file("A-001", Some(record(u, vec![], ""))),
        file("A-002", Some(record(u, vec![], ""))),
    ];
    assert!(matches!(
        Directory::load("/r".to_string(), Config::default(), files),
        Err(LoadError::DuplicateUuid(p)) if p == "/root/A-002.md"
    ));
}

#[test]
fn plan_and_commit_add() {
    let mut dir = Directory::new("/root".to_string(), Config::default());
    let (uuid, h, path) = dir.plan_add(&"REQ".to_string()).unwrap();
    assert_eq!(h.to_string(), "REQ-001");
    assert_eq!(path, "/root/REQ-001.md");
    assert!(dir.tree().get(uuid).is_none());
    let committed = dir.commit_add("REQ".to_string(), uuid, "now".to_string()).unwrap();
    assert_eq!(committed, h);
    assert_eq!(dir.path_for(uuid).unwrap(), "/root/REQ-001.md");
    dir.set_path(uuid, "/root/misc/custom-name.md".to_string());
    assert_eq!(dir.path_for(uuid).unwrap(), "/root/misc/custom-name.md");
    let moves = dir.relocations();
    assert_eq!(moves, vec![(uuid, "/root/misc/custom-name.md".to_string(), "/root/REQ-001.md".to_string())]);

    let restricted = Config { allowed_kinds: vec!["SYS".to_string()], ..Config::default() };
    let dir = Directory::new("/root".to_string(), restricted);
    assert_eq!(dir.plan_add(&"REQ".to_string()).unwrap_err(), DirectoryAddError::KindNotAllowed);
    assert_eq!(
        dir.plan_add(&String::new()).unwrap_err(),
        DirectoryAddError::KindNotAllowed
    );
}

#[test]
fn directory_link_returns_child() {
    let mut dir = Directory::new("/root".to_string(), Config { digits: 4, ..Config::default() });
    let (p, hp, path) = dir.plan_add(&"USR".to_string()).unwrap();
    assert_eq!(path, "/root/USR-0001.md");
    dir.commit_add("USR".to_string(), p, String::new()).unwrap();
    let (c, hc, _) = dir.plan_add(&"SYS".to_string()).unwrap();
    dir.commit_add("SYS".to_string(), c, String::new()).unwrap();
    assert_eq!(dir.link(&hc, &hp).unwrap(), c);
    let rec = dir.record_of(c).unwrap();
    assert_eq!(rec.parents.len(), 1);
    assert_eq!(rec.parents[0].uuid, p);
    assert_eq!(rec.parents[0].hrid, "USR-0001");
}

#[test]
fn config_defaults() {
    let config = Config::default();
    assert!(config.allowed_kinds.is_empty());
    assert_eq!(config.digits, 3);
    assert!(!config.allow_unrecognised);
    assert!(config.allows_kind(&"ANY".to_string()));
    let restricted = Config { allowed_kinds: vec!["USR".into(), "SYS".into()], ..Config::default() };
    assert!(restricted.allows_kind(&"SYS".to_string()));
    assert!(!restricted.allows_kind(&"REQ".to_string()));
}

#[test]
fn store_with_path_hint() {
    let mut dir = Directory::new("/root".to_string(), Config::default());
    let u = new_uuid();
    let r = Requirement::new(u, hrid("REQ-004"), "text".into());
    assert!(dir.store(r, Some("/root/legacy/one.md".to_string())).unwrap().is_none());
    assert_eq!(dir.path_for(u).unwrap(), "/root/legacy/one.md");
    let other = Requirement::new(new_uuid(), hrid("REQ-004"), "clash".into());
    assert!(dir.store(other, None).is_err());
    let (_, h, _) = dir.plan_add(&"REQ".to_string()).unwrap();
    assert_eq!(h.to_string(), "REQ-005");
}

#[test]
fn raise_counters_from_saved_index() {
    let mut dir = Directory::new("/root".to_string(), Config::default());
    let index = Index::load(TomlIndex { kinds: vec![("REQ".to_string(), TomlKind { latest_id: 41 })] });
    dir.raise_counters(&index);
    let (_, h, _) = dir.plan_add(&"REQ".to_string()).unwrap();
    assert_eq!(h.to_string(), "REQ-042");
    assert_eq!(dir.counters().latest_id(&"REQ".to_string()), 41);
}

#[test]
fn plan_add_with_uuid_outcomes() {
    let mut dir = Directory::new("/root".to_string(), Config::default());
    let u = new_uuid();
    let (pu, h, path) = dir.plan_add_with_uuid(&"REQ".to_string(), u).unwrap();
    assert_eq!(pu, u);
    assert_eq!(h.to_string(), "REQ-001");
    assert_eq!(path, "/root/REQ-001.md");
    dir.commit_add("REQ".to_string(), u, String::new()).unwrap();
    assert_eq!(
        dir.plan_add_with_uuid(&"REQ".to_string(), u).unwrap_err(),
        DirectoryAddError::Index(AddError::UuidTaken(u))
    );
    assert_eq!(
        dir.plan_add_with_uuid(&"A-B".to_string(), new_uuid()).unwrap_err(),
        DirectoryAddError::Index(AddError::InvalidKind)
    );
}

#[test]
fn load_fails_on_a_recorded_cycle() {
    let a = new_uuid();
    let b = new_uuid();
    let link = |u: u128, h: &str| ParentRecord { uuid: u, fingerprint: "f".into(), hrid: h.into() };
    let files = vec![
        file("A-001", Some(record(a, vec![link(b, "B-001")], "a"))),
        file("B-001", Some(record(b, vec![link(a, "A-001")], "b"))),
    ];
    match Directory::load("/root".to_string(), Config::default(), files) {
        Err(LoadError::Link(path, e)) => {
            assert_eq!(path, "/root/B-001.md");
            assert_eq!(e, requiem::tree::LinkError::WouldCreateCycle { child: b, parent: a });
        }
        _ => panic!("a cycle among the files should fail the load"),
    }
    let own = vec![file("A-001", Some(record(a, vec![link(a, "A-001")], "a")))];
    assert!(matches!(
        Directory::load("/root".to_string(), Config::default(), own),
        Err(LoadError::Link(_, requiem::tree::LinkError::SelfReference(_)))
    ));
}

#[test]
fn load_keeps_file_contents() {
    let u = new_uuid();
    let mut rec = record(u, vec![], "body text");
    rec.tags = vec!["t1".to_string(), "t2".to_string()];
    let dir = Directory::load("/root".to_string(), Config::default(), vec![file("NS-REQ-007", Some(rec))]).unwrap();
    let (h, r) = dir.tree().get(u).unwrap();
    assert_eq!(h, &hrid("NS-REQ-007"));
    assert_eq!(r.content(), "body text");
    assert_eq!(r.tags(), &vec!["t1".to_string(), "t2".to_string()]);
    assert_eq!(r.created(), "2025-07-14T07:15:00Z");
    let (_, next, _) = dir.plan_add(&"REQ".to_string()).unwrap();
    assert_eq!(next.to_string(), "REQ-008");
}
