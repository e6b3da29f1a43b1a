use mcmpmgr::catalog::CatalogDep;
use mcmpmgr::catalog::CatalogFile;
use mcmpmgr::catalog::CatalogProject;
use mcmpmgr::catalog::CatalogVersion;
use sha1::Digest;

use mcmpmgr::errors::Error;
use mcmpmgr::mod_meta::ModMeta;
use mcmpmgr::mod_meta::ModProvider;
use mcmpmgr::modpack::ModLoader;
use mcmpmgr::modpack::ModpackMeta;
use mcmpmgr::providers::DownloadSide;
use mcmpmgr::providers::FileSource;
use mcmpmgr::resolver::PinnedPackMeta;
use mcmpmgr::resolver::World;
use mcmpmgr::strmap::StrMap;
use mcmpmgr::strmap::StrSet;

fn version(
    id: &str,
    number: &str,
    date: &str,
    filename: &str,
    deps: Option<Vec<CatalogDep>>,
) -> CatalogVersion {
    CatalogVersion {
        id: String::from(id),
        version_number: String::from(number),
        date_published: String::from(date),
        loaders: vec![String::from("fabric")],
        game_versions: vec![String::from("1.20.1")],
        files: vec![CatalogFile {
            url: format!("https://cdn.example/{filename}"),
            sha1: String::from("11"),
            sha512: String::from("22"),
            filename: String::from(filename),
        }],
        dependencies: deps,
    }
}

fn required_dep(project_id: &str) -> CatalogDep {
    CatalogDep {
        dependency_type: String::from("required"),
        project_id: String::from(project_id),
        version_id: None,
    }
}

fn project(slug: &str, versions: Vec<CatalogVersion>) -> CatalogProject {
    CatalogProject {
        slug: String::from(slug),
        client_side: String::from("required"),
        server_side: String::from("required"),
        versions,
    }
}

fn world_with(projects: Vec<(&str, CatalogProject)>) -> World {
    let mut catalog: StrMap<CatalogProject> = StrMap::new();
    for (k, p) in projects {
        catalog.insert(k, p);
    }
    World { catalog, raw: StrMap::new() }
}

fn fabric_pack() -> ModpackMeta {
    ModpackMeta::new("testpack", "1.20.1", ModLoader::Fabric)
}

/// The catalog offers 0.5.0 and 0.5.8; the wildcard takes the newest.
#[test]
fn wildcard_resolves_to_newest_version() {
    let world = world_with(vec![(
        "sodium",
        project(
            "sodium",
            vec![
                version("v050", "0.5.0", "2023-06-01", "sodium-0.5.0.jar", None),
                version("v058", "0.5.8", "2024-01-15", "sodium-0.5.8.jar", None),
            ],
        ),
    )]);
    let pack = fabric_pack();
    let spec = ModMeta::new("sodium").unwrap();
    let mut lock = PinnedPackMeta::new();
    let deps = lock.pin_mod(&spec, &pack, &world).unwrap();
    assert!(deps.is_empty());
    let pm = lock.mods.get("sodium").unwrap();
    assert_eq!(pm.version, "0.5.8");
    match &pm.source[0] {
        FileSource::Download { filename, .. } => assert_eq!(filename, "sodium-0.5.8.jar"),
        _ => panic!("expected a download source"),
    }
}

/// An exact constraint picks the matching version even if older.
#[test]
fn exact_constraint_resolves_exactly() {
    let world = world_with(vec![(
        "sodium",
        project(
            "sodium",
            vec![
                version("v050", "0.5.0", "2023-06-01", "sodium-0.5.0.jar", None),
                version("v058", "0.5.8", "2024-01-15", "sodium-0.5.8.jar", None),
            ],
        ),
    )]);
    let pack = fabric_pack();
    let spec = ModMeta::new("sodium@0.5.0").unwrap();
    let mut lock = PinnedPackMeta::new();
    lock.pin_mod(&spec, &pack, &world).unwrap();
    assert_eq!(lock.mods.get("sodium").unwrap().version, "0.5.0");
}

/// Resolving the same spec against an unchanged catalog twice yields
/// identical pinned entries.
#[test]
fn pinning_twice_is_deterministic() {
    let make_world = || {
        world_with(vec![(
            "sodium",
            project(
                "sodium",
                vec![
                    version("v050", "0.5.0", "2023-06-01", "sodium-0.5.0.jar", None),
                    version("v058", "0.5.8", "2024-01-15", "sodium-0.5.8.jar", None),
                ],
            ),
        )])
    };
    let pack = fabric_pack();
    let spec = ModMeta::new("sodium").unwrap();
    let mut lock1 = PinnedPackMeta::new();
    let mut lock2 = PinnedPackMeta::new();
    lock1.pin_mod(&spec, &pack, &make_world()).unwrap();
    lock2.pin_mod(&spec, &pack, &make_world()).unwrap();
    let a = lock1.mods.get("sodium").unwrap();
    let b = lock2.mods.get("sodium").unwrap();
    assert_eq!(format!("{:?}", a), format!("{:?}", b));
}

/// Two mods depending on each other: the transitive pin terminates with
/// both pinned, each exactly once.
#[test]
fn cyclic_dependencies_pin_both_once() {
    let world = world_with(vec![
        (
            "alpha",
            project(
                "alpha",
                vec![version(
                    "a1",
                    "1.0.0",
                    "2024-01-01",
                    "alpha.jar",
                    Some(vec![required_dep("beta")]),
                )],
            ),
        ),
        (
            "beta",
            project(
                "beta",
                vec![version(
                    "b1",
                    "2.0.0",
                    "2024-01-02",
                    "beta.jar",
                    Some(vec![required_dep("alpha")]),
                )],
            ),
        ),
    ]);
    let pack = fabric_pack();
    let spec = ModMeta::new("alpha").unwrap();
    let mut lock = PinnedPackMeta::new();
    lock.pin_mod_and_deps(&spec, &pack, &world, false).unwrap();
    assert!(lock.mods.contains_key("alpha"));
    assert!(lock.mods.contains_key("beta"));
    assert_eq!(lock.mods.len(), 2);
}

/// Removal guard: a pinned dependency cannot leave while its dependent
/// stays, unless forced.
#[test]
fn removal_guard_blocks_then_force_removes() {
    let world = world_with(vec![
        (
            "alpha",
            project(
                "alpha",
                vec![version(
                    "a1",
                    "1.0.0",
                    "2024-01-01",
                    "alpha.jar",
                    Some(vec![required_dep("beta")]),
                )],
            ),
        ),
        ("beta", project("beta", vec![version("b1", "2.0.0", "2024-01-02", "beta.jar", None)])),
    ]);
    let mut pack = fabric_pack();
    pack = pack.add_mod(&ModMeta::new("alpha").unwrap()).unwrap();
    let mut lock = PinnedPackMeta::new();
    lock.pin_mod_and_deps(&ModMeta::new("alpha").unwrap(), &pack, &world, false).unwrap();
    assert!(lock.mods.contains_key("beta"));

    let blocked = lock.remove_mod("beta", &pack, false);
    match blocked {
        Err(Error::DependentsExist { name, dependents }) => {
            assert_eq!(name, "beta");
            assert!(dependents.iter().any(|d| d == "alpha"));
        }
        other => panic!("expected DependentsExist, got {:?}", other),
    }
    assert!(lock.mods.contains_key("beta"));

    lock.remove_mod("beta", &pack, true).unwrap();
    assert!(!lock.mods.contains_key("beta"));
    assert!(lock.mods.contains_key("alpha"));
}

/// Removing an undesired mod empties the lockfile; a second prune pass is
/// a no-op.
#[test]
fn remove_then_prune_is_stable() {
    let world = world_with(vec![(
        "sodium",
        project("sodium", vec![version("v058", "0.5.8", "2024-01-15", "sodium-0.5.8.jar", None)]),
    )]);
    let pack = fabric_pack();
    let mut lock = PinnedPackMeta::new();
    lock.pin_mod(&ModMeta::new("sodium").unwrap(), &pack, &world).unwrap();
    lock.remove_mod("sodium", &pack, false).unwrap();
    assert!(!lock.mods.contains_key("sodium"));
    assert_eq!(lock.mods.len(), 0);
    lock.prune_mods(&pack);
    assert_eq!(lock.mods.len(), 0);
}

/// A prune pass keeps desired mods and their dependencies, and drops
/// orphans.
#[test]
fn prune_drops_only_orphans() {
    let world = world_with(vec![
        (
            "alpha",
            project(
                "alpha",
                vec![version(
                    "a1",
                    "1.0.0",
                    "2024-01-01",
                    "alpha.jar",
                    Some(vec![required_dep("beta")]),
                )],
            ),
        ),
        ("beta", project("beta", vec![version("b1", "2.0.0", "2024-01-02", "beta.jar", None)])),
        ("gamma", project("gamma", vec![version("g1", "3.0.0", "2024-01-03", "gamma.jar", None)])),
    ]);
    let mut pack = fabric_pack();
    pack = pack.add_mod(&ModMeta::new("alpha").unwrap()).unwrap();
    let mut lock = PinnedPackMeta::new();
    lock.pin_mod_and_deps(&ModMeta::new("alpha").unwrap(), &pack, &world, false).unwrap();
    lock.pin_mod(&ModMeta::new("gamma").unwrap(), &pack, &world).unwrap();
    assert_eq!(lock.mods.len(), 3);
    lock.prune_mods(&pack);
    assert!(lock.mods.contains_key("alpha"));
    assert!(lock.mods.contains_key("beta"));
    assert!(!lock.mods.contains_key("gamma"));
}

/// All providers failing reports the spec, the try-order and the
/// constraint.
#[test]
fn resolution_failure_reports_details() {
    let world = world_with(vec![]);
    let pack = fabric_pack();
    let spec = ModMeta::new("missing@1.2.3").unwrap();
    let mut lock = PinnedPackMeta::new();
    let r = lock.pin_mod(&spec, &pack, &world);
    match r {
        Err(Error::ResolutionFailure { name, providers_tried, constraint }) => {
            assert_eq!(name, "missing");
            assert_eq!(constraint, "1.2.3");
            assert_eq!(providers_tried, vec![ModProvider::Modrinth]);
        }
        other => panic!("expected ResolutionFailure, got {:?}", other),
    }
    assert_eq!(lock.mods.len(), 0);
}

/// Reaching the unbuilt provider is fatal.
#[test]
fn curseforge_provider_is_not_implemented() {
    let world = world_with(vec![]);
    let pack = fabric_pack();
    let spec = ModMeta::new("anything").unwrap().provider(ModProvider::CurseForge);
    let mut lock = PinnedPackMeta::new();
    let r = lock.pin_mod(&spec, &pack, &world);
    assert!(matches!(r, Err(Error::NotImplemented)));
}

/// A forbidden name pins nothing and reports success.
#[test]
fn forbidden_mod_is_skipped() {
    let world = world_with(vec![]);
    let mut pack = fabric_pack();
    pack.forbid_mod("cursed");
    let mut lock = PinnedPackMeta::new();
    let deps = lock.pin_mod(&ModMeta::new("cursed").unwrap(), &pack, &world).unwrap();
    assert!(deps.is_empty());
    assert_eq!(lock.mods.len(), 0);
}

/// The direct-URL provider pins from the fetched bytes: digests of the
/// payload, the URL's last segment as filename, and an unknown version.
#[test]
fn raw_provider_pins_from_payload() {
    let payload: Vec<u8> = b"some artifact bytes".to_vec();
    let mut sha512 = sha2::Sha512::new();
    sha512.update(&payload);
    let mut expected_sha512 = String::new();
    for b in sha512.finalize() {
        expected_sha512.push_str(&format!("{:02x}", b));
    }
    let mut sha1 = sha1::Sha1::new();
    sha1.update(&payload);
    let mut expected_sha1 = String::new();
    for b in sha1.finalize() {
        expected_sha1.push_str(&format!("{:02x}", b));
    }

    let mut raw: StrMap<Vec<u8>> = StrMap::new();
    raw.insert("https://example.com/files/thing.jar", payload);
    let world = World { catalog: StrMap::new(), raw };
    let pack = fabric_pack();
    let spec = ModMeta::new("thing")
        .unwrap()
        .provider(ModProvider::Raw)
        .url("https://example.com/files/thing.jar");
    let mut lock = PinnedPackMeta::new();
    let deps = lock.pin_mod(&spec, &pack, &world).unwrap();
    assert!(deps.is_empty());
    let pm = lock.mods.get("thing").unwrap();
    assert_eq!(pm.version, "Unknown");
    assert!(pm.deps.is_none());
    match &pm.source[0] {
        FileSource::Download { url, sha1, sha512, filename } => {
            assert_eq!(url, "https://example.com/files/thing.jar");
            assert_eq!(filename, "thing.jar");
            assert_eq!(sha1, &expected_sha1);
            assert_eq!(sha512, &expected_sha512);
        }
        _ => panic!("expected a download source"),
    }
}

/// The fill-on-miss membership check: pinned filenames answer true for a
/// matching side, everything else false, and the memo keeps answering.
#[test]
fn file_is_pinned_respects_side_filter() {
    let world = world_with(vec![(
        "sodium",
        project("sodium", vec![version("v058", "0.5.8", "2024-01-15", "sodium-0.5.8.jar", None)]),
    )]);
    let pack = fabric_pack();
    let mut lock = PinnedPackMeta::new();
    lock.pin_mod(&ModMeta::new("sodium").unwrap(), &pack, &world).unwrap();

    let mut cache = StrSet::new();
    assert!(lock.file_is_pinned("sodium-0.5.8.jar", DownloadSide::Both, &mut cache));
    assert!(lock.file_is_pinned("sodium-0.5.8.jar", DownloadSide::Both, &mut cache));
    let mut cache2 = StrSet::new();
    assert!(!lock.file_is_pinned("stale.jar", DownloadSide::Both, &mut cache2));
    let mut cache3 = StrSet::new();
    assert!(lock.file_is_pinned("sodium-0.5.8.jar", DownloadSide::Server, &mut cache3));
}

/// A client-only artifact is not pinned for the server side.
#[test]
fn file_is_pinned_excludes_other_side() {
    let mut p = project(
        "clientmod",
        vec![version("c1", "1.0.0", "2024-01-01", "clientmod.jar", None)],
    );
    p.server_side = String::from("unsupported");
    let world = world_with(vec![("clientmod", p)]);
    let pack = fabric_pack();
    let mut lock = PinnedPackMeta::new();
    lock.pin_mod(&ModMeta::new("clientmod").unwrap(), &pack, &world).unwrap();
    let mut cache = StrSet::new();
    assert!(!lock.file_is_pinned("clientmod.jar", DownloadSide::Server, &mut cache));
    let mut cache2 = StrSet::new();
    assert!(lock.file_is_pinned("clientmod.jar", DownloadSide::Client, &mut cache2));
}

/// `init` pins every desired mod of the manifest.
#[test]
fn init_pins_all_desired_mods() {
    let world = world_with(vec![
        ("alpha", project("alpha", vec![version("a1", "1.0.0", "2024-01-01", "alpha.jar", None)])),
        ("beta", project("beta", vec![version("b1", "2.0.0", "2024-01-02", "beta.jar", None)])),
    ]);
    let mut pack = fabric_pack();
    pack = pack.add_mod(&ModMeta::new("alpha").unwrap()).unwrap();
    pack = pack.add_mod(&ModMeta::new("beta").unwrap()).unwrap();
    let mut lock = PinnedPackMeta::new();
    lock.init(&pack, &world, false).unwrap();
    assert!(lock.mods.contains_key("alpha"));
    assert!(lock.mods.contains_key("beta"));
}

/// Dependency constraints are relaxed to the wildcard when transitive
/// versions are ignored.
#[test]
fn transitive_versions_can_be_ignored() {
    let world = world_with(vec![
        (
            "alpha",
            project(
                "alpha",
                vec![version(
                    "a1",
                    "1.0.0",
                    "2024-01-01",
                    "alpha.jar",
                    Some(vec![CatalogDep {
                        dependency_type: String::from("required"),
                        project_id: String::from("beta"),
                        version_id: Some(String::from("bold")),
                    }]),
                )],
            ),
        ),
        (
            "beta",
            project(
                "beta",
                vec![
                    version("bold", "1.9.0", "2023-05-01", "beta-1.9.0.jar", None),
                    version("bnew", "2.0.0", "2024-01-02", "beta-2.0.0.jar", None),
                ],
            ),
        ),
    ]);
    let pack = fabric_pack();
    let mut lock = PinnedPackMeta::new();
    lock.pin_mod_and_deps(&ModMeta::new("alpha").unwrap(), &pack, &world, true).unwrap();
    // the dep referenced version id "bold" (1.9.0), but the relaxed
    // wildcard picks the newest
    assert_eq!(lock.mods.get("beta").unwrap().version, "2.0.0");
}

/// An optional dependency is recorded as no new work.
#[test]
fn optional_dependencies_are_not_required() {
    let world = world_with(vec![(
        "alpha",
        project(
            "alpha",
            vec![version(
                "a1",
                "1.0.0",
                "2024-01-01",
                "alpha.jar",
                Some(vec![CatalogDep {
                    dependency_type: String::from("optional"),
                    project_id: String::from("nowhere"),
                    version_id: None,
                }]),
            )],
        ),
    )]);
    let pack = fabric_pack();
    let mut lock = PinnedPackMeta::new();
    lock.pin_mod_and_deps(&ModMeta::new("alpha").unwrap(), &pack, &world, false).unwrap();
    assert!(lock.mods.contains_key("alpha"));
    assert_eq!(lock.mods.len(), 1);
}

/// A spec already pinned at its exact constraint is a no-op; no provider
/// is consulted.
#[test]
fn exact_pin_is_a_no_op_when_already_pinned() {
    let world = world_with(vec![(
        "sodium",
        project("sodium", vec![version("v058", "0.5.8", "2024-01-15", "sodium-0.5.8.jar", None)]),
    )]);
    let pack = fabric_pack();
    let mut lock = PinnedPackMeta::new();
    lock.pin_mod_and_deps(&ModMeta::new("sodium@0.5.8").unwrap(), &pack, &world, false).unwrap();
    assert_eq!(lock.mods.len(), 1);
    // the catalog is gone now: only the no-op path can succeed
    let empty_world = world_with(vec![]);
    lock.pin_mod_and_deps(&ModMeta::new("sodium@0.5.8").unwrap(), &pack, &empty_world, false)
        .unwrap();
    assert_eq!(lock.mods.len(), 1);
    assert_eq!(lock.mods.get("sodium").unwrap().version, "0.5.8");
}

