use blanket_rs::{
    append_ext_hash, content_hash, decide_target, filter_allows, has_hash_ext, is_hex_digest,
    join_path, needs_rebuild, parent_of, strip_extension, strip_prefix_dir, Cache, FsCache,
    MemCache, NoCache, TargetDecision,
};

#[test]
fn no_cache_is_degenerate() {
    let mut cache = NoCache::new();
    cache.set("k", &7u64, &vec![(String::from("d"), 9u64)]);
    assert!(cache.get("k").is_none());
    assert_eq!(cache.hash("anything"), 0);
}

#[test]
fn cache_round_trip() {
    // set(k, h, {d: hd}) followed by get(k) returns (h, {d: hd})
    let mut cache = MemCache::new();
    assert!(cache.get("site/index.html").is_none());
    let deps = vec![(String::from("assets/logo.png"), String::from("aa11"))];
    cache.set("site/index.html", &String::from("beef"), &deps);
    let (hash, got_deps) = cache.get("site/index.html").unwrap();
    assert_eq!(hash, String::from("beef"));
    assert_eq!(got_deps, deps);
}

#[test]
fn cache_record_replaced_whole() {
    let mut cache = MemCache::new();
    cache.set("k", &String::from("h1"), &vec![(String::from("a"), String::from("1"))]);
    cache.set("k", &String::from("h2"), &vec![(String::from("b"), String::from("2"))]);
    let (hash, deps) = cache.get("k").unwrap();
    assert_eq!(hash, String::from("h2"));
    assert_eq!(deps, vec![(String::from("b"), String::from("2"))]);
}

#[test]
fn blake3_known_digest() {
    // the digest of the empty input, as 64 lowercase hex characters
    let digest = content_hash(&vec![]);
    assert_eq!(
        digest,
        String::from("af1349b9f5f9a1a6a0404dea36dcc9499bcb25c9adc112b7cc9a93cae41f3262")
    );
    assert!(is_hex_digest(&digest));
    // a different input gives a different digest
    let other = content_hash(&vec![104u8, 105u8]);
    assert_ne!(digest, other);
    assert!(is_hex_digest(&other));
}

#[test]
fn hex_digest_shape() {
    assert!(!is_hex_digest(""));
    assert!(!is_hex_digest("zz"));
    let upper = "AF1349B9F5F9A1A6A0404DEA36DCC9499BCB25C9ADC112B7CC9A93CAE41F3262";
    assert!(!is_hex_digest(upper));
}

#[test]
fn incremental_rebuild_decision() {
    // a target whose single dependency kept its hash, whose output
    // exists and whose record is present needs no rebuild
    let deps = vec![(String::from("dep.txt"), String::from("aaaa"))];
    let cached = Some((String::from("tttt"), deps.clone()));
    assert_eq!(needs_rebuild(true, &cached, &deps), false);

    // changing the dependency's hash forces a rebuild
    let changed = vec![(String::from("dep.txt"), String::from("bbbb"))];
    assert_eq!(needs_rebuild(true, &cached, &changed), true);

    // a missing output forces a rebuild
    assert_eq!(needs_rebuild(false, &cached, &deps), true);

    // a missing record forces a rebuild
    assert_eq!(needs_rebuild(true, &None, &deps), true);

    // adding a dependency forces a rebuild
    let grown = vec![
        (String::from("dep.txt"), String::from("aaaa")),
        (String::from("new.txt"), String::from("cccc")),
    ];
    assert_eq!(needs_rebuild(true, &cached, &grown), true);

    // dropping a dependency forces a rebuild too
    let empty: Vec<(String, String)> = vec![];
    assert_eq!(needs_rebuild(true, &cached, &empty), true);
}

#[test]
fn two_runs_skip_then_rebuild() {
    // first run: nothing recorded, so the target is rebuilt and its
    // record is written
    let mut cache = MemCache::new();
    let deps = vec![(String::from("dep.txt"), String::from("aaaa"))];
    let first = decide_target(true, true, &cache.get("out.txt"), &deps);
    assert_eq!(first, TargetDecision::Rebuild);
    cache.set("out.txt", &String::from("tttt"), &deps);

    // second run: the dependency's hash is unchanged and the target
    // still exists, so no rebuild is needed
    let second = decide_target(true, true, &cache.get("out.txt"), &deps);
    assert_eq!(second, TargetDecision::Skip);

    // changing the dependency's contents (and thus its hash) between
    // runs forces a rebuild on the next run
    let changed = vec![(String::from("dep.txt"), String::from("bbbb"))];
    let third = decide_target(true, true, &cache.get("out.txt"), &changed);
    assert_eq!(third, TargetDecision::Rebuild);
}

#[test]
fn target_decisions() {
    let deps = vec![(String::from("d"), String::from("aa"))];
    let cached = Some((String::from("t"), deps.clone()));
    assert_eq!(decide_target(true, true, &cached, &deps), TargetDecision::Skip);
    assert_eq!(decide_target(true, false, &cached, &deps), TargetDecision::Rebuild);
    assert_eq!(decide_target(false, true, &None, &deps), TargetDecision::CacheOnly);
    assert_eq!(decide_target(false, false, &None, &deps), TargetDecision::MissingNoRule);
}

#[test]
fn path_helpers() {
    assert_eq!(join_path("a", "b"), String::from("a/b"));
    assert_eq!(join_path("a/", "b"), String::from("a/b"));
    assert_eq!(join_path("", "b"), String::from("b"));
    assert_eq!(join_path("a", "/b"), String::from("/b"));

    assert_eq!(parent_of("/out/a.txt"), Some(String::from("/out")));
    assert_eq!(parent_of("a.txt"), Some(String::from("")));
    assert_eq!(parent_of("/a"), Some(String::from("/")));
    assert_eq!(parent_of("/"), None);
    assert_eq!(parent_of(""), None);

    assert_eq!(append_ext_hash("file.txt"), String::from("file.txt.blake3"));
    assert_eq!(append_ext_hash("file"), String::from("file.blake3"));
    assert_eq!(append_ext_hash(""), String::from(""));

    assert_eq!(strip_extension("a/b.txt.blake3"), String::from("a/b.txt"));
    assert_eq!(strip_extension("a/b"), String::from("a/b"));
    assert_eq!(strip_extension("a/.hidden"), String::from("a/.hidden"));

    assert!(has_hash_ext("x/dep.txt.blake3"));
    assert!(!has_hash_ext("x/dep.txt"));
    assert!(!has_hash_ext("x/.blake3"));

    assert_eq!(
        strip_prefix_dir("cache/k/inputs/dep.txt.blake3", "cache/k/inputs"),
        Some(String::from("dep.txt.blake3"))
    );
    assert_eq!(strip_prefix_dir("elsewhere/dep.txt.blake3", "cache/k/inputs"), None);
}

#[test]
fn fs_cache_layout() {
    let cache = FsCache::new(String::from("cache"));
    assert_eq!(cache.target_location("site/page"), String::from("cache/site/page/target.blake3"));
    assert_eq!(cache.dep_dir("site/page"), String::from("cache/site/page/inputs"));
    assert_eq!(
        cache.dep_location("site/page", "assets/logo.png"),
        String::from("cache/site/page/inputs/assets/logo.png.blake3")
    );
    assert_eq!(
        cache.get_dep_from_location(
            "site/page",
            "cache/site/page/inputs/assets/logo.png.blake3"
        ),
        Some(String::from("assets/logo.png.blake3"))
    );
}

#[test]
fn fs_cache_plan_and_assemble_round_trip() {
    let cache = FsCache::new(String::from("cache"));
    let hash = String::from(
        "af1349b9f5f9a1a6a0404dea36dcc9499bcb25c9adc112b7cc9a93cae41f3262",
    );
    let dep_hash = String::from(
        "0000000000000000000000000000000000000000000000000000000000000001",
    );
    let deps = vec![(String::from("assets/logo.png"), dep_hash.clone())];
    let plan = cache.set_plan("page", &hash, &deps);
    assert_eq!(plan.len(), 2);
    assert_eq!(plan[0], (String::from("cache/page/target.blake3"), hash.clone()));
    assert_eq!(
        plan[1],
        (String::from("cache/page/inputs/assets/logo.png.blake3"), dep_hash.clone())
    );

    // feeding the written files back reassembles the record
    let target_content = Some(plan[0].1.clone());
    let dep_files = vec![plan[1].clone()];
    let record = cache.assemble_record("page", target_content, &dep_files).unwrap();
    assert_eq!(record.0, hash);
    assert_eq!(record.1, deps);
}

#[test]
fn assemble_record_rejects_malformed() {
    let cache = FsCache::new(String::from("cache"));
    // no target record
    assert!(cache.assemble_record("page", None, &vec![]).is_none());
    // a malformed target hash
    assert!(cache
        .assemble_record("page", Some(String::from("nonsense")), &vec![])
        .is_none());
    // a dependency record outside the dependency directory
    let good = String::from(
        "af1349b9f5f9a1a6a0404dea36dcc9499bcb25c9adc112b7cc9a93cae41f3262",
    );
    let stray = vec![(String::from("elsewhere/x.blake3"), good.clone())];
    assert!(cache.assemble_record("page", Some(good), &stray).is_none());
}

#[test]
fn filter_rules() {
    let png = Some(vec![String::from(r".*\.png")]);
    let tmp = Some(vec![String::from(r".*\.tmp")]);

    // include acts as an allow list when alone
    assert_eq!(filter_allows(&png, &None, &String::from("a/b.png")), Some(true));
    assert_eq!(filter_allows(&png, &None, &String::from("a/b.txt")), Some(false));

    // exclude acts as a deny list when alone
    assert_eq!(filter_allows(&None, &tmp, &String::from("a/b.tmp")), Some(false));
    assert_eq!(filter_allows(&None, &tmp, &String::from("a/b.txt")), Some(true));

    // include overrides exclude when both are present
    let both_inc = Some(vec![String::from(r"keep\.tmp")]);
    assert_eq!(filter_allows(&both_inc, &tmp, &String::from("keep.tmp")), Some(true));
    assert_eq!(filter_allows(&both_inc, &tmp, &String::from("drop.tmp")), Some(false));
    assert_eq!(filter_allows(&both_inc, &tmp, &String::from("plain.txt")), Some(true));

    // with no filters every path is allowed
    assert_eq!(filter_allows(&None, &None, &String::from("anything")), Some(true));

    // an invalid pattern is reported, not matched
    let broken = Some(vec![String::from("(")]);
    assert_eq!(filter_allows(&broken, &None, &String::from("x")), None);
}
