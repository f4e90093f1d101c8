use zz::buildcache::{from_buildcache, is_newer_than, judge_cache, to_buildcache, CacheVerdict};
use zz::name::Name;
use zz::pipeline::CFile;

fn sample() -> CFile {
    CFile {
        name: Name::from("::proj::b"),
        filepath: "target/default/zz/proj_b.c".to_string(),
        sources: vec!["src/b.zz".to_string(), "src/a.zz".to_string()],
        deps: vec![Name::from("::proj::a")],
        symbols: vec![Name::from("::proj::a::ping"), Name::from("::ext::<stdio.h>::printf")],
        cflags: vec!["-I.".to_string()],
        lflags: vec![],
    }
}

#[test]
fn descriptor_round_trip() {
    let cf = sample();
    let bytes = to_buildcache(&cf).unwrap();
    assert!(!bytes.is_empty());
    let back = from_buildcache(&bytes).unwrap();
    assert_eq!(back, cf);
}

#[test]
fn descriptor_round_trip_of_empty_values() {
    let cf = CFile {
        name: Name(vec![]),
        filepath: String::new(),
        sources: vec![],
        deps: vec![],
        symbols: vec![],
        cflags: vec![],
        lflags: vec![],
    };
    let bytes = to_buildcache(&cf).unwrap();
    assert_eq!(from_buildcache(&bytes).unwrap(), cf);
}

#[test]
fn descriptor_bytes_are_messagepack() {
    let cf = CFile {
        name: Name(vec!["a".to_string()]),
        filepath: "f".to_string(),
        sources: vec![],
        deps: vec![],
        symbols: vec![],
        cflags: vec![],
        lflags: vec![],
    };
    let bytes = to_buildcache(&cf).unwrap();
    assert_eq!(bytes, vec![0x97, 0x91, 0xa1, b'a', 0xa1, b'f', 0x90, 0x90, 0x90, 0x90, 0x90]);
}

#[test]
fn descriptor_encoding_is_deterministic() {
    assert_eq!(to_buildcache(&sample()), to_buildcache(&sample()));
}

#[test]
fn garbage_is_no_descriptor() {
    assert_eq!(from_buildcache(&vec![]), None);
    assert_eq!(from_buildcache(&vec![0xc1, 0x00, 0x01]), None);
    assert_eq!(from_buildcache(&vec![0x92, 0x01, 0x02]), None);
}

#[test]
fn newer_sources_make_a_target_stale() {
    assert!(!is_newer_than(&vec![Some(5), Some(7)], Some(7)));
    assert!(is_newer_than(&vec![Some(5), Some(8)], Some(7)));
    assert!(is_newer_than(&vec![Some(5)], None));
    assert!(is_newer_than(&vec![None], Some(7)));
    assert!(!is_newer_than(&vec![], Some(0)));
    assert!(is_newer_than(&vec![], None));
}

#[test]
fn untouched_build_reuses_the_descriptor() {
    let v = judge_cache(Some(sample()), &vec![Some(10), Some(11)], Some(20), Some(21));
    assert_eq!(v, CacheVerdict::Reuse(sample()));
}

#[test]
fn touched_source_discards_the_descriptor() {
    let v = judge_cache(Some(sample()), &vec![Some(10), Some(30)], Some(20), Some(21));
    assert_eq!(v, CacheVerdict::Discard);
    let same_time = judge_cache(Some(sample()), &vec![Some(20)], Some(20), Some(20));
    assert_eq!(same_time, CacheVerdict::Reuse(sample()));
}

#[test]
fn older_descriptor_or_output_discards() {
    assert_eq!(
        judge_cache(Some(sample()), &vec![Some(10)], Some(9), Some(21)),
        CacheVerdict::Discard
    );
    assert_eq!(
        judge_cache(Some(sample()), &vec![Some(10)], Some(20), Some(9)),
        CacheVerdict::Discard
    );
    assert_eq!(judge_cache(Some(sample()), &vec![Some(10)], None, Some(21)), CacheVerdict::Discard);
}

#[test]
fn unreadable_descriptor_is_discarded() {
    assert_eq!(judge_cache(None, &vec![], Some(1), Some(1)), CacheVerdict::Discard);
}
