use tflite_server::cache::{ModelCache, MAX_CACHE_SIZE};
use tflite_server::error::Status;
use tflite_server::models::{cache_key, check_upload, compute_sha256, is_model_file, sort_models, ModelInfo};
use tflite_server::paths::{check_model_exists, check_model_path, is_within};

fn p(parts: &[&str]) -> Vec<Vec<u8>> {
    parts.iter().map(|s| s.as_bytes().to_vec()).collect()
}

#[test]
fn containment_by_whole_components() {
    let dir = p(&["/", "config", "models"]);
    assert!(is_within(&dir, &p(&["/", "config", "models", "a.tflite"])));
    assert!(is_within(&dir, &dir));
    assert!(!is_within(&dir, &p(&["/", "config", "models2", "a.tflite"])));
    assert!(!is_within(&dir, &p(&["/", "config"])));
    assert!(!is_within(&dir, &p(&["/", "etc", "passwd"])));
}

#[test]
fn model_path_checks() {
    let dir = p(&["/", "config", "models"]);
    assert_eq!(check_model_path(Ok(dir.clone()), Some(p(&["/", "config", "models", "m.tflite"])), None), Ok(()));
    let e = check_model_path(Ok(dir.clone()), Some(p(&["/", "etc", "passwd"])), None).unwrap_err();
    assert_eq!(e.status, Status::BadRequest);
    assert_eq!(e.detail, "Invalid model name");
    // a file that does not exist yet is judged by its parent
    assert_eq!(check_model_path(Ok(dir.clone()), None, Some(p(&["/", "config", "models", "sub"]))), Ok(()));
    let e = check_model_path(Ok(dir.clone()), None, Some(p(&["/", "tmp"]))).unwrap_err();
    assert_eq!(e.detail, "Invalid model name");
    // nothing resolves (say `../x/m.tflite` with `x` absent): refused
    let e = check_model_path(Ok(dir.clone()), None, None).unwrap_err();
    assert_eq!(e.status, Status::BadRequest);
    assert_eq!(e.detail, "Invalid model name");
    // the canonical path wins over the parent
    assert_eq!(check_model_path(Ok(dir), Some(p(&["/", "config", "models", "x"])), Some(p(&["/", "tmp"]))), Ok(()));
    let e = check_model_path(Err(String::from("No such file or directory (os error 2)")), None, None).unwrap_err();
    assert_eq!(e.status, Status::Internal);
    assert_eq!(e.detail, "Model dir error: No such file or directory (os error 2)");
}

#[test]
fn existence_check() {
    assert_eq!(check_model_exists(true), Ok(()));
    let e = check_model_exists(false).unwrap_err();
    assert_eq!(e.status, Status::NotFound);
    assert_eq!(e.detail, "Model not found");
}

#[test]
fn cache_hit_requires_matching_key() {
    let mut c: ModelCache<u32> = ModelCache::new();
    assert_eq!(c.len(), 0);
    let a = p(&["/", "m", "a.tflite"]);
    c.insert(a.clone(), String::from("t1-10"), 1);
    assert_eq!(c.lookup(&a, &String::from("t1-10")), Some(&1));
    assert_eq!(c.lookup(&a, &String::from("t2-10")), None);
    assert!(c.contains(&a));
    // reloading under a new key replaces the entry
    c.insert(a.clone(), String::from("t2-10"), 2);
    assert_eq!(c.len(), 1);
    assert_eq!(c.lookup(&a, &String::from("t2-10")), Some(&2));
    assert_eq!(c.lookup(&a, &String::from("t1-10")), None);
}

#[test]
fn cache_holds_at_most_three_and_evicts_oldest() {
    assert_eq!(MAX_CACHE_SIZE, 3);
    let mut c: ModelCache<&'static str> = ModelCache::new();
    let k = String::from("k");
    let names = ["a", "b", "c", "d"];
    for n in names {
        c.insert(p(&["/", n]), k.clone(), n);
        assert!(c.len() <= MAX_CACHE_SIZE);
    }
    assert_eq!(c.len(), 3);
    assert_eq!(c.lookup(&p(&["/", "a"]), &k), None);
    assert_eq!(c.lookup(&p(&["/", "b"]), &k), Some(&"b"));
    assert_eq!(c.lookup(&p(&["/", "d"]), &k), Some(&"d"));
    // replacing a cached path when full evicts nothing
    c.insert(p(&["/", "c"]), k.clone(), "c2");
    assert_eq!(c.len(), 3);
    assert_eq!(c.lookup(&p(&["/", "b"]), &k), Some(&"b"));
    assert_eq!(c.lookup(&p(&["/", "c"]), &k), Some(&"c2"));
}

#[test]
fn cache_remove_forgets_only_that_path() {
    let mut c: ModelCache<i32> = ModelCache::new();
    let k = String::from("k");
    c.insert(p(&["/", "a"]), k.clone(), 1);
    c.insert(p(&["/", "b"]), k.clone(), 2);
    c.remove(&p(&["/", "a"]));
    assert_eq!(c.lookup(&p(&["/", "a"]), &k), None);
    assert!(!c.contains(&p(&["/", "a"])));
    assert_eq!(c.lookup(&p(&["/", "b"]), &k), Some(&2));
    c.remove(&p(&["/", "zzz"]));
    assert_eq!(c.len(), 1);
}

#[test]
fn model_file_extension() {
    assert!(is_model_file("model.tflite"));
    assert!(is_model_file("a.b.tflite"));
    assert!(!is_model_file("model.tflite.bak"));
    assert!(!is_model_file(".tflite"));
    assert!(!is_model_file("tflite"));
    assert!(!is_model_file("model.TFLITE"));
    assert!(!is_model_file(".."));
    assert!(!is_model_file("model."));
    for name in ["x.tflite", ".tflite", "..tflite", "a..tflite", "a.", ".", "..", "b"] {
        let std = std::path::Path::new(name).extension().and_then(|e| e.to_str()) == Some("tflite");
        assert_eq!(is_model_file(name), std, "{:?}", name);
    }
}

fn info(name: &str, size: u64) -> ModelInfo {
    ModelInfo { name: String::from(name), size, sha256: String::new() }
}

#[test]
fn models_sorted_by_name() {
    let sorted = sort_models(vec![info("b.tflite", 2), info("a.tflite", 1), info("C.tflite", 3), info("ab.tflite", 4)]);
    let names: Vec<&str> = sorted.iter().map(|m| m.name.as_str()).collect();
    assert_eq!(names, vec!["C.tflite", "a.tflite", "ab.tflite", "b.tflite"]);
    assert_eq!(sort_models(vec![]), vec![]);
    // models of equal name keep their order
    let same = sort_models(vec![info("y", 0), info("x", 1), info("x", 2), info("a", 3), info("x", 3)]);
    let sizes: Vec<u64> = same.iter().map(|m| m.size).collect();
    assert_eq!(sizes, vec![3, 1, 2, 3, 0]);
}

#[test]
fn sha256_of_contents() {
    assert_eq!(compute_sha256(b"abc"), "ba7816bf8f01cfea414140de5dae2223b00361a396177a9cb410ff61f20015ad");
    assert_eq!(compute_sha256(b""), "e3b0c44298fc1c149afbf4c8996fb92427ae41e4649b934ca495991b7852b855");
    assert_eq!(compute_sha256(b"hello").len(), 64);
}

#[test]
fn upload_must_not_be_empty() {
    assert_eq!(check_upload(10), Ok(()));
    let e = check_upload(0).unwrap_err();
    assert_eq!(e.status, Status::BadRequest);
    assert_eq!(e.detail, "Empty model file");
}

#[test]
fn freshness_key() {
    assert_eq!(cache_key("SystemTime { tv_sec: 5, tv_nsec: 0 }", 1024), "SystemTime { tv_sec: 5, tv_nsec: 0 }-1024");
    assert_eq!(cache_key("", 0), "-0");
}

#[test]
fn uploaded_names_are_listed() {
    for stem in ["m", "model", "a.b", ".", "..", "x y"] {
        assert!(is_model_file(&format!("{stem}.tflite")), "{stem}");
    }
    // an empty stem is not a model file, as `Path::extension` has it
    assert!(!is_model_file(".tflite"));
}

#[test]
fn freshness_keys_differ_by_size() {
    assert_ne!(cache_key("t", 10), cache_key("t", 100));
    assert_ne!(cache_key("t-1", 2), cache_key("t", 12));
    assert_eq!(cache_key("t", 7), cache_key("t", 7));
}

#[test]
fn stale_plans_are_never_served() {
    let mut c: ModelCache<u32> = ModelCache::new();
    let a = p(&["/", "m", "a.tflite"]);
    let old = String::from("t1-10");
    let new = String::from("t2-12");
    c.insert(a.clone(), old.clone(), 1);
    // the file changed: its key is now `new`; the old plan is not served
    assert_eq!(c.lookup(&a, &new), None);
    c.insert(a.clone(), new.clone(), 2);
    assert_eq!(c.lookup(&a, &old), None);
    assert_eq!(c.lookup(&a, &new), Some(&2));
    // an upload drops the path: nothing is served until it is loaded again
    c.remove(&a);
    assert_eq!(c.lookup(&a, &new), None);
}
