use sha1::Digest;

use mcmpmgr::errors::Error;
use mcmpmgr::file_meta::ensure_relative_prefix;
use mcmpmgr::file_meta::should_apply;
use mcmpmgr::file_meta::FileApplyPolicy;
use mcmpmgr::file_meta::FileMeta;
use mcmpmgr::hashing::hex_encode;
use mcmpmgr::mod_meta::ModMeta;
use mcmpmgr::mod_meta::ModProvider;
use mcmpmgr::modpack::ModLoader;
use mcmpmgr::modpack::ModpackMeta;
use mcmpmgr::profiles::Data;
use mcmpmgr::profiles::PackSource;
use mcmpmgr::profiles::Profile;
use mcmpmgr::providers::DownloadSide;
use mcmpmgr::sync::verify_artifact_sha512;

#[test]
fn mod_meta_new_parses_name_and_constraint() {
    let plain = ModMeta::new("sodium").unwrap();
    assert_eq!(plain.name, "sodium");
    assert_eq!(plain.version, "*");
    assert!(plain.providers.is_none());
    assert!(plain.download_url.is_none());

    let pinned = ModMeta::new("sodium@0.5.8").unwrap();
    assert_eq!(pinned.name, "sodium");
    assert_eq!(pinned.version, "0.5.8");

    let empty_constraint = ModMeta::new("sodium@").unwrap();
    assert_eq!(empty_constraint.name, "sodium");
    assert_eq!(empty_constraint.version, "");

    let bad = ModMeta::new("a@b@c");
    assert!(matches!(bad, Err(Error::InvalidModName { name }) if name == "a@b@c"));
}

#[test]
fn mod_meta_builders_set_fields() {
    let m = ModMeta::new("lithium")
        .unwrap()
        .provider(ModProvider::Modrinth)
        .provider(ModProvider::Modrinth)
        .provider(ModProvider::Raw)
        .url("https://example.com/lithium.jar")
        .version("0.11.1")
        .modloader(ModLoader::Fabric)
        .mc_version("1.20.1");
    assert_eq!(m.providers, Some(vec![ModProvider::Modrinth, ModProvider::Raw]));
    assert_eq!(m.download_url.as_deref(), Some("https://example.com/lithium.jar"));
    assert_eq!(m.version, "0.11.1");
    assert_eq!(m.loader, Some(ModLoader::Fabric));
    assert_eq!(m.mc_version.as_deref(), Some("1.20.1"));
}

#[test]
fn mod_meta_equality_goes_by_name_and_version() {
    let a = ModMeta::new("sodium@1.0").unwrap();
    let b = ModMeta::new("sodium@1.0").unwrap().mc_version("1.19");
    let c = ModMeta::new("sodium@2.0").unwrap();
    assert!(a == b);
    assert!(a != c);
}

#[test]
fn provider_parse_ignores_case() {
    assert!(matches!(ModProvider::parse("Modrinth"), Ok(ModProvider::Modrinth)));
    assert!(matches!(ModProvider::parse("CURSEFORGE"), Ok(ModProvider::CurseForge)));
    assert!(matches!(ModProvider::parse("raw"), Ok(ModProvider::Raw)));
    assert!(matches!(
        ModProvider::parse("steam"),
        Err(Error::InvalidProvider { text }) if text == "steam"
    ));
}

#[test]
fn side_parse_and_containment() {
    assert!(matches!(DownloadSide::parse("Both"), Ok(DownloadSide::Both)));
    assert!(matches!(DownloadSide::parse("client"), Ok(DownloadSide::Client)));
    assert!(matches!(DownloadSide::parse("SERVER"), Ok(DownloadSide::Server)));
    assert!(matches!(
        DownloadSide::parse("everywhere"),
        Err(Error::InvalidSide { text }) if text == "everywhere"
    ));

    assert!(DownloadSide::Both.contains(DownloadSide::Server));
    assert!(DownloadSide::Server.contains(DownloadSide::Both));
    assert!(DownloadSide::Server.contains(DownloadSide::Server));
    assert!(!DownloadSide::Server.contains(DownloadSide::Client));
    assert_eq!(DownloadSide::Client.label(), "Client");
}

#[test]
fn loader_parse_is_exact() {
    assert!(matches!(ModLoader::parse("Fabric"), Ok(ModLoader::Fabric)));
    assert!(matches!(ModLoader::parse("Forge"), Ok(ModLoader::Forge)));
    assert!(matches!(
        ModLoader::parse("fabric"),
        Err(Error::InvalidLoader { text }) if text == "fabric"
    ));
    assert_eq!(ModLoader::Fabric.label(), "Fabric");
}

#[test]
fn apply_policy_parse_ignores_case() {
    assert!(matches!(FileApplyPolicy::parse("Always"), Ok(FileApplyPolicy::Always)));
    assert!(matches!(FileApplyPolicy::parse("once"), Ok(FileApplyPolicy::Once)));
    assert!(matches!(FileApplyPolicy::parse("MergeRetain"), Ok(FileApplyPolicy::MergeRetain)));
    assert!(matches!(
        FileApplyPolicy::parse("mergeoverwrite"),
        Ok(FileApplyPolicy::MergeOverwrite)
    ));
    assert!(matches!(
        FileApplyPolicy::parse("sometimes"),
        Err(Error::InvalidApplyPolicy { text }) if text == "sometimes"
    ));
    assert_eq!(FileApplyPolicy::MergeRetain.merge_overwrite(), Some(false));
    assert_eq!(FileApplyPolicy::MergeOverwrite.merge_overwrite(), Some(true));
    assert_eq!(FileApplyPolicy::Always.merge_overwrite(), None);
}

#[test]
fn should_apply_respects_side_and_policy() {
    let meta = FileMeta {
        target_path: String::from("config/a.toml"),
        side: DownloadSide::Server,
        apply_policy: FileApplyPolicy::Once,
    };
    assert!(should_apply(&meta, DownloadSide::Both, false));
    assert!(!should_apply(&meta, DownloadSide::Both, true));
    assert!(!should_apply(&meta, DownloadSide::Client, false));
    let always = FileMeta { apply_policy: FileApplyPolicy::Always, ..meta };
    assert!(should_apply(&always, DownloadSide::Server, true));
}

#[test]
fn manifest_add_remove_and_forbid() {
    let pack = ModpackMeta::new("mypack", "1.20.1", ModLoader::Fabric);
    assert_eq!(pack.pack_name, "mypack");
    assert_eq!(pack.default_providers, vec![ModProvider::Modrinth]);

    let pack = pack.add_mod(&ModMeta::new("sodium").unwrap()).unwrap();
    assert!(pack.mods.contains_key("sodium"));
    assert_eq!(pack.iter_mods().len(), 1);

    let mut pack = pack.remove_mod("sodium");
    assert!(!pack.mods.contains_key("sodium"));

    pack.forbid_mod("cursed");
    let err = pack.add_mod(&ModMeta::new("cursed").unwrap());
    assert!(matches!(err, Err(Error::ForbiddenMod { name }) if name == "cursed"));
}

#[test]
fn forbidding_drops_the_desired_mod() {
    let pack = ModpackMeta::new("mypack", "1.20.1", ModLoader::Fabric);
    let mut pack = pack.add_mod(&ModMeta::new("sodium").unwrap()).unwrap();
    pack.forbid_mod("sodium");
    assert!(!pack.mods.contains_key("sodium"));
    assert!(pack.forbidden_mods.contains("sodium"));
}

#[test]
fn manifest_records_and_drops_files() {
    let pack = ModpackMeta::new("mypack", "1.20.1", ModLoader::Fabric);
    let meta = FileMeta {
        target_path: String::from("config/x.json"),
        side: DownloadSide::Both,
        apply_policy: FileApplyPolicy::Always,
    };
    let pack = pack.record_file("./config/x.json", &meta);
    assert!(pack.files.as_ref().unwrap().contains_key("./config/x.json"));
    let pack = pack.drop_file("./config/x.json");
    assert!(!pack.files.as_ref().unwrap().contains_key("./config/x.json"));
}

#[test]
fn provider_default_list_deduplicates() {
    let pack = ModpackMeta::new("mypack", "1.20.1", ModLoader::Fabric)
        .provider(ModProvider::Modrinth)
        .provider(ModProvider::Raw);
    assert_eq!(pack.default_providers, vec![ModProvider::Modrinth, ModProvider::Raw]);
}

#[test]
fn pack_source_parse_and_label() {
    let git = PackSource::parse("git+https://example.com/pack.git");
    match &git {
        PackSource::Git { url } => assert_eq!(url, "https://example.com/pack.git"),
        _ => panic!("expected a git source"),
    }
    assert_eq!(git.label(), "git+https://example.com/pack.git");

    let local = PackSource::parse("/packs/mine");
    match &local {
        PackSource::Local { path } => assert_eq!(path, "/packs/mine"),
        _ => panic!("expected a local source"),
    }
    assert_eq!(local.label(), "/packs/mine");
}

#[test]
fn profile_store_round_trip() {
    let mut data = Data::default();
    assert!(data.get_profile_names().is_empty());
    let profile = Profile::new(
        "/instances/main",
        PackSource::parse("/packs/mine"),
        DownloadSide::Client,
    );
    data.add_profile("main", profile);
    assert_eq!(data.get_profile_names(), vec![String::from("main")]);
    let got = data.get_profile("main").unwrap();
    assert_eq!(got.instance_folder, "/instances/main");
    assert!(data.get_profile("other").is_none());
    data.remove_profile("main");
    assert!(data.get_profile("main").is_none());
}

#[test]
fn hex_encoding_is_lowercase_two_digits_per_byte() {
    assert_eq!(hex_encode(&vec![]), "");
    assert_eq!(hex_encode(&vec![0x00, 0xff, 0x10, 0xab]), "00ff10ab");
}

#[test]
fn integrity_gate_accepts_matching_hash_case_insensitively() {
    let payload: Vec<u8> = b"payload bytes".to_vec();
    let mut h = sha2::Sha512::new();
    h.update(&payload);
    let mut expected = String::new();
    for b in h.finalize() {
        expected.push_str(&format!("{:02X}", b));
    }
    // uppercase expected still passes: the comparison folds case
    assert!(verify_artifact_sha512("p.jar", &expected, &payload).is_ok());
}

#[test]
fn integrity_gate_rejects_wrong_hash() {
    let payload: Vec<u8> = b"payload bytes".to_vec();
    let bad = "deadbeef";
    let r = verify_artifact_sha512("p.jar", bad, &payload);
    match r {
        Err(Error::IntegrityMismatch { filename, expected, actual }) => {
            assert_eq!(filename, "p.jar");
            assert_eq!(expected, "deadbeef");
            assert_eq!(actual.len(), 128);
            assert_ne!(actual, expected);
        }
        other => panic!("expected IntegrityMismatch, got {:?}", other),
    }
}

#[test]
fn relative_prefix_is_added_once() {
    assert_eq!(ensure_relative_prefix("config/a.toml"), "./config/a.toml");
    assert_eq!(ensure_relative_prefix("./config/a.toml"), "./config/a.toml");
    assert_eq!(ensure_relative_prefix("/abs/path"), "/abs/path");
}

#[test]
fn profiles_can_be_updated_in_place() {
    let mut data = Data::default();
    data.add_profile(
        "main",
        Profile::new("/instances/a", PackSource::parse("/packs/mine"), DownloadSide::Client),
    );
    match data.get_profile_mut("main") {
        Some(p) => p.side = DownloadSide::Both,
        None => panic!("profile should exist"),
    }
    assert!(matches!(data.get_profile("main").unwrap().side, DownloadSide::Both));
    assert!(data.get_profile_mut("absent").is_none());
}

