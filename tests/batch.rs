use tle::{decode_batch, Cache, DecodeError, Failure, Field, Reason, TLE};

const ISS: &str = "ISS (ZARYA)
1 25544U 98067A   20045.18587073  .00000950  00000-0  25302-4 0  9990
2 25544  51.6443 242.0161 0004885 264.6060 207.3845 15.49165514212791";

const GRUS: &str = "GRUS-1A
1 43890U 18111Q   20044.88470557  .00000320  00000-0  36258-4 0  9993
2 43890  97.7009 312.6237 0003899   7.8254 352.3026 14.92889838 61757";

fn records(text: &str) -> Vec<TLE> {
    decode_batch(text).records
}

fn summary(cache: &Cache) -> Vec<(u32, i64, String)> {
    cache.tles().iter().map(|t| (t.satellite_number, t.epoch, t.name.clone())).collect()
}

#[test]
fn batch_decodes_each_group() {
    let b = decode_batch(&format!("{}\n{}\n", ISS, GRUS));
    assert_eq!(b.records.len(), 2);
    assert_eq!(b.records[0].satellite_number, 25544);
    assert_eq!(b.records[1].satellite_number, 43890);
    assert!(b.failures.is_empty());
}

#[test]
fn batch_goes_on_after_a_failure() {
    let broken = ISS.replace("1 25544U", "1 2554XU");
    let b = decode_batch(&format!("{}\n{}\n", broken, GRUS));
    assert_eq!(b.records.len(), 1);
    assert_eq!(b.records[0].name, "GRUS-1A");
    assert_eq!(
        b.failures,
        vec![Failure {
            group: 0,
            error: DecodeError::MalformedRecord { field: Field::CatalogNumber, reason: Reason::NotAnInteger },
        }]
    );
}

#[test]
fn batch_reports_truncated_input() {
    let b = decode_batch(&format!("{}\n{}\nLEFT OVER\n", ISS, GRUS));
    assert_eq!(b.records.len(), 2);
    assert_eq!(
        b.failures,
        vec![Failure { group: 2, error: DecodeError::TruncatedInput { leftover_lines: 1 } }]
    );
    let b = decode_batch("A\nB");
    assert_eq!(b.records.len(), 0);
    assert_eq!(b.failures, vec![Failure { group: 0, error: DecodeError::TruncatedInput { leftover_lines: 2 } }]);
}

#[test]
fn merge_adds_new_records() {
    let mut cache = Cache::new(5);
    cache.merge(records(&format!("{}\n{}", ISS, GRUS)), 10);
    assert_eq!(cache.last_bulk_update(), 10);
    assert_eq!(
        summary(&cache),
        vec![(25544, 1581654459, "ISS (ZARYA)".to_string()), (43890, 1581628438, "GRUS-1A".to_string())]
    );
}

#[test]
fn merge_twice_keeps_records() {
    let text = format!("{}\n{}", ISS, GRUS);
    let mut cache = Cache::new(0);
    cache.merge(records(&text), 10);
    let once = summary(&cache);
    cache.merge(records(&text), 20);
    assert_eq!(summary(&cache), once);
    assert_eq!(cache.last_bulk_update(), 20);
}

#[test]
fn merge_replaces_existing_record() {
    let mut cache = Cache::new(0);
    cache.merge(records(&format!("{}\n{}", ISS, GRUS)), 10);
    let newer = ISS.replace("ISS (ZARYA)", "ISS").replace("20045.18587073", "20046.18587073");
    cache.merge(records(&newer), 20);
    assert_eq!(
        summary(&cache),
        vec![(25544, 1581654459 + 86400, "ISS".to_string()), (43890, 1581628438, "GRUS-1A".to_string())]
    );
}

#[test]
fn update_twice_keeps_one_record_per_satellite() {
    let mut cache = Cache::new(0);
    cache.update(&format!("{}\n{}", ISS, GRUS), 10);
    let newer = ISS.replace("ISS (ZARYA)", "ISS");
    cache.update(&newer, 20);
    assert_eq!(cache.tles().len(), 2);
    assert_eq!(cache.tles().iter().filter(|t| t.satellite_number == 25544).count(), 1);
    assert_eq!(cache.tles()[0].name, "ISS");
    assert_eq!(cache.last_bulk_update(), 20);
}

#[test]
fn from_records_keeps_last_duplicate() {
    let newer = ISS.replace("ISS (ZARYA)", "ISS NEWER");
    let cache = Cache::from_records(7, records(&format!("{}\n{}\n{}", ISS, GRUS, newer)));
    assert_eq!(cache.last_bulk_update(), 7);
    assert_eq!(cache.tles().len(), 2);
    assert_eq!(cache.tles()[0].name, "ISS NEWER");
}

#[test]
fn update_merges_and_reports() {
    let mut cache = Cache::new(0);
    let failures = cache.update(&format!("{}\n{}\nX\n", ISS, GRUS), 1_700_000_123);
    assert_eq!(cache.last_bulk_update(), 1_700_000_123);
    assert_eq!(failures, vec![Failure { group: 2, error: DecodeError::TruncatedInput { leftover_lines: 1 } }]);
    assert_eq!(cache.tles().len(), 2);
    let (stamp, tles) = cache.into_parts();
    assert_eq!(stamp, 1_700_000_123);
    assert_eq!(tles.len(), 2);
}
