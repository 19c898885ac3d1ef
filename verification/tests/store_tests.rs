use fsm::binfmt::{decode_bin, encode_bin};
use fsm::codec::{decode_store, encode_store, StoreBody};
use fsm::db::{Context, Db, Format, MetaContainer};
use fsm::json::{decode_json, encode_json_compact, encode_json_pretty};
use fsm::ops::{set_data, update_tags, SetArgs};
use fsm::paths::RelativePath;
use fsm::query::{check_filter, get_data, GetArgs, SortBy};
use fsm::tags::{parse_tag, TagKey, TagValue};

fn set_args() -> SetArgs {
    SetArgs {
        replace: false,
        tag: vec![],
        tag_url: vec![],
        tag_num: vec![],
        tag_bool: vec![],
        drop: vec![],
        drop_all: false,
        comment: None,
        drop_comment: false,
        self_: false,
        files: vec![],
    }
}

fn get_args() -> GetArgs {
    GetArgs {
        no_tags: false,
        no_comment: false,
        all: false,
        self_: false,
        sort_by: vec![SortBy::Name],
        includes_tags: vec![],
        excludes_tags: vec![],
        files: vec![],
    }
}

#[test]
fn json_round_trip_empty() {
    let db = Db::new(7);
    let text = encode_json_compact(&db);
    let back = decode_json(text.as_str()).expect("round trip");
    assert_eq!(back.created, 7);
    assert_eq!(back.files.len(), 0);
}

#[test]
fn json_round_trip_entries() {
    let mut ctx = Context::create(
        String::from("/root"),
        Format::Json,
        String::from("/root"),
        5,
    );
    let mut args = set_args();
    args.tag = vec![parse_tag("color:red").unwrap(), parse_tag("flag").unwrap()];
    args.comment = Some(String::from("test"));
    args.files = vec![String::from("a.txt")];
    let msgs = set_data(&mut ctx, &args, 9);
    assert!(msgs.is_empty());
    let text = encode_json_compact(&ctx.db);
    let back = decode_json(text.as_str()).expect("round trip");
    let entry = back.files.get("a.txt").expect("entry");
    assert_eq!(entry.created, 9);
    match entry.tags.get("color").expect("color tag") {
        Some(TagValue::Simple(v)) => assert_eq!(v.as_str(), "red"),
        other => panic!("unexpected tag value: {:?}", other),
    }
    assert_eq!(entry.comment.as_deref(), Some("test"));
}

#[test]
fn pretty_round_trip() {
    let mut ctx = Context::create(
        String::from("/root"),
        Format::JsonPretty,
        String::from("/root"),
        5,
    );
    let mut args = set_args();
    args.tag = vec![parse_tag("n:12").unwrap()];
    args.files = vec![String::from("b.txt")];
    set_data(&mut ctx, &args, 6);
    let text = encode_json_pretty(&ctx.db);
    let back = fsm::json::decode_json_pretty(text.as_str()).expect("round trip");
    let entry = back.files.get("b.txt").expect("entry");
    match entry.tags.get("n").expect("n tag") {
        Some(TagValue::Number(v)) => assert_eq!(*v, 12),
        other => panic!("unexpected tag value: {:?}", other),
    }
}

#[test]
fn filter_conjunction() {
    let mut db = Db::new(1);
    let mut args = set_args();
    args.tag = vec![parse_tag("a").unwrap(), parse_tag("b").unwrap()];
    args.self_ = true;
    update_tags(&args, &mut db.tags);

    let mut q = get_args();
    q.includes_tags = vec![TagKey::parse("a").unwrap()];
    q.excludes_tags = vec![TagKey::parse("c").unwrap()];
    assert!(check_filter(&db, &q));

    q.includes_tags = vec![TagKey::parse("a").unwrap(), TagKey::parse("c").unwrap()];
    q.excludes_tags = vec![];
    assert!(!check_filter(&db, &q));

    q.includes_tags = vec![];
    q.excludes_tags = vec![TagKey::parse("a").unwrap()];
    assert!(!check_filter(&db, &q));
}

#[test]
fn resolve_outside_root_is_reported() {
    let r = RelativePath::from_root("/root", "/root", "/elsewhere/x.txt");
    assert!(r.is_err());
    let ok = RelativePath::from_root("/root", "/root", "x.txt").unwrap();
    assert_eq!(ok.db_entry(), "x.txt");
    assert_eq!(ok.full_path(), "/root/x.txt");
}

#[test]
fn resolution_idempotent() {
    let first = RelativePath::from_root("/root", "/root/sub", "../a.txt").unwrap();
    let again = RelativePath::from_root("/root", "/root/sub", first.full_path()).unwrap();
    assert_eq!(first.db_entry(), again.db_entry());
    assert_eq!(first.db_entry(), "a.txt");
}

#[test]
fn query_skips_bad_paths() {
    let mut ctx = Context::create(
        String::from("/root"),
        Format::Json,
        String::from("/root"),
        2,
    );
    let mut args = set_args();
    args.tag = vec![parse_tag("k").unwrap()];
    args.files = vec![String::from("good.txt")];
    set_data(&mut ctx, &args, 3);
    let mut q = get_args();
    q.files = vec![String::from("/outside/bad.txt"), String::from("good.txt")];
    let out = get_data(&ctx, &q);
    assert_eq!(out.items.len(), 1);
    assert_eq!(out.items[0].key.as_str(), "good.txt");
    assert_eq!(out.messages.len(), 1);
}

#[test]
fn updated_sorts_after() {
    let mut ctx = Context::create(
        String::from("/root"),
        Format::Json,
        String::from("/root"),
        1,
    );
    let mut args = set_args();
    args.tag = vec![parse_tag("t").unwrap()];
    args.files = vec![String::from("young.txt")];
    set_data(&mut ctx, &args, 2);
    // touch young.txt once more so it carries an updated stamp
    let mut args2 = set_args();
    args2.tag = vec![parse_tag("u").unwrap()];
    args2.files = vec![String::from("young.txt")];
    set_data(&mut ctx, &args2, 8);
    let mut args3 = set_args();
    args3.tag = vec![parse_tag("t").unwrap()];
    args3.files = vec![String::from("aged.txt")];
    set_data(&mut ctx, &args3, 4);
    let mut q = get_args();
    q.all = true;
    q.sort_by = vec![SortBy::Updated];
    q.includes_tags = vec![TagKey::parse("t").unwrap()];
    let out = get_data(&ctx, &q);
    assert_eq!(out.items.len(), 2);
    // aged.txt was never updated after creation, so it sorts last
    assert_eq!(out.items[0].key.as_str(), "young.txt");
    assert_eq!(out.items[1].key.as_str(), "aged.txt");
}

#[test]
fn rename_to_occupied_key_changes_nothing() {
    let mut ctx = Context::create(
        String::from("/root"),
        Format::Json,
        String::from("/root"),
        1,
    );
    let mut args = set_args();
    args.tag = vec![parse_tag("x").unwrap()];
    args.files = vec![String::from("old.txt"), String::from("new.txt")];
    set_data(&mut ctx, &args, 2);
    let rargs = fsm::ops::RenameArgs {
        exists: false,
        current: String::from("old.txt"),
        renamed: String::from("new.txt"),
    };
    let before = encode_json_compact(&ctx.db);
    let out = fsm::ops::rename_data(&mut ctx, &rargs, true);
    assert!(matches!(out, fsm::ops::RenameOutcome::AlreadyExists(_)));
    let after = encode_json_compact(&ctx.db);
    assert_eq!(before, after);
}

#[test]
fn collection_delete_lists_members() {
    let mut ctx = Context::create(
        String::from("/root"),
        Format::Json,
        String::from("/root"),
        1,
    );
    assert!(fsm::coll::create_coll(&mut ctx.db, String::from("favs")));
    let files = vec![String::from("a.txt"), String::from("b.txt")];
    let msgs = fsm::coll::push_coll(&mut ctx, "favs", &files).expect("collection exists");
    assert!(msgs.is_empty());
    let removed = fsm::coll::delete_coll(&mut ctx.db, "favs").expect("collection exists");
    assert_eq!(removed.len(), 2);
    assert_eq!(removed.get_index(0).as_str(), "a.txt");
    assert_eq!(removed.get_index(1).as_str(), "b.txt");
    assert!(fsm::coll::delete_coll(&mut ctx.db, "favs").is_none());
}

#[test]
fn store_self_metadata() {
    let mut ctx = Context::create(
        String::from("/root"),
        Format::Json,
        String::from("/root"),
        1,
    );
    let mut args = set_args();
    args.self_ = true;
    args.tag = vec![parse_tag("proj:demo").unwrap()];
    args.comment = Some(String::from("store note"));
    set_data(&mut ctx, &args, 2);
    assert_eq!(ctx.db.comment(), Some("store note"));
    assert_eq!(ctx.db.modified(), 1);
    let text = encode_json_compact(&ctx.db);
    let back = decode_json(text.as_str()).expect("round trip");
    assert_eq!(back.comment.as_deref(), Some("store note"));
}

#[test]
fn binary_round_trip() {
    let mut ctx = Context::create(
        String::from("/root"),
        Format::Binary,
        String::from("/root"),
        5,
    );
    let mut args = set_args();
    args.tag = vec![
        parse_tag("color:red").unwrap(),
        parse_tag("n:-7").unwrap(),
        parse_tag("ok:true").unwrap(),
    ];
    args.comment = Some(String::from("binary note"));
    args.files = vec![String::from("a.txt")];
    set_data(&mut ctx, &args, 9);
    assert!(fsm::coll::create_coll(&mut ctx.db, String::from("favs")));
    fsm::coll::push_coll(&mut ctx, "favs", &vec![String::from("a.txt")]).unwrap();
    let bytes = encode_bin(&ctx.db);
    let back = decode_bin(&bytes).expect("round trip");
    let entry = back.files.get("a.txt").expect("entry");
    assert_eq!(entry.created, 9);
    match entry.tags.get("n").expect("n tag") {
        Some(TagValue::Number(v)) => assert_eq!(*v, -7),
        other => panic!("unexpected tag value: {:?}", other),
    }
    match entry.tags.get("ok").expect("ok tag") {
        Some(TagValue::Bool(v)) => assert!(*v),
        other => panic!("unexpected tag value: {:?}", other),
    }
    assert_eq!(entry.comment.as_deref(), Some("binary note"));
    let coll = back.collections.get("favs").expect("collection");
    assert_eq!(coll.len(), 1);
    assert_eq!(coll.get_index(0).as_str(), "a.txt");
}

#[test]
fn binary_rejects_truncated_body() {
    let db = Db::new(3);
    let mut bytes = encode_bin(&db);
    bytes.pop();
    assert!(decode_bin(&bytes).is_none());
}

#[test]
fn save_and_reload_every_format() {
    for format in [Format::JsonPretty, Format::Json, Format::Binary] {
        let mut ctx = Context::create(
            String::from("/root"),
            format,
            String::from("/root"),
            4,
        );
        let mut args = set_args();
        args.tag = vec![parse_tag("k:v").unwrap()];
        args.comment = Some(String::from("note"));
        args.files = vec![String::from("x/y.txt")];
        set_data(&mut ctx, &args, 6);
        let body = ctx.save();
        let back = decode_store(&format, &body).expect("reload");
        let entry = back.files.get("x/y.txt").expect("entry");
        assert_eq!(entry.comment.as_deref(), Some("note"));
        match entry.tags.get("k").expect("k tag") {
            Some(TagValue::Simple(v)) => assert_eq!(v.as_str(), "v"),
            other => panic!("unexpected tag value: {:?}", other),
        }
    }
}

#[test]
fn format_file_names() {
    assert_eq!(Format::JsonPretty.file_name(), "db.pretty.json");
    assert_eq!(Format::Json.file_name(), "db.json");
    assert_eq!(Format::Binary.file_name(), "db.bincode");
}

#[test]
fn pretty_body_reads_back_with_any_layout() {
    let db = Db::new(2);
    let compact = encode_json_compact(&db);
    let pretty = encode_json_pretty(&db);
    let stripped: String = pretty.chars().filter(|c| !c.is_whitespace()).collect();
    assert_eq!(stripped, compact);
    // the pretty reader tolerates whitespace between any two tokens
    let spaced: String = format!("{}\n", compact.replace(":", ":\n"));
    assert!(fsm::json::decode_json_pretty(spaced.as_str()).is_some());
}

#[test]
fn store_body_shape_follows_format() {
    let db = Db::new(1);
    match encode_store(&Format::Json, &db) {
        StoreBody::Text(t) => assert!(t.starts_with("{\"files\":")),
        StoreBody::Bytes(_) => panic!("json body must be text"),
    }
    match encode_store(&Format::Binary, &db) {
        StoreBody::Bytes(b) => assert!(!b.is_empty()),
        StoreBody::Text(_) => panic!("binary body must be bytes"),
    }
}

