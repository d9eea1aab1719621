use uqff_maker::batch::BatchDriver;

#[test]
fn batch_visits_every_scheme_and_records_failures() {
    let schemes = vec!["Q4K".to_string(), "Q8_0".to_string(), "AFQ8".to_string()];
    let mut d = BatchDriver::new(schemes, "out/m".to_string(), "m-###.uqff".to_string());
    let j = d.next_job().unwrap();
    assert_eq!((j.index, j.scheme.as_str(), j.path.as_str()), (0, "Q4K", "out/m/m-q4k.uqff"));
    d.complete(None);
    let j = d.next_job().unwrap();
    assert_eq!((j.index, j.path.as_str()), (1, "out/m/m-q8_0.uqff"));
    d.complete(Some("out of memory".to_string()));
    let j = d.next_job().unwrap();
    assert_eq!(j.path, "out/m/m-afq8.uqff");
    d.complete(None);
    assert!(d.next_job().is_none());
    assert_eq!(d.attempted(), 3);
    assert_eq!(d.failures().len(), 1);
    assert_eq!(d.failures()[0].scheme, "Q8_0");
    assert_eq!(d.failures()[0].path, "out/m/m-q8_0.uqff");
    assert_eq!(d.failures()[0].error, "out of memory");
}

#[test]
fn empty_batch_has_no_jobs() {
    let d = BatchDriver::new(Vec::new(), "m".to_string(), "m-###.uqff".to_string());
    assert!(d.next_job().is_none());
    assert_eq!(d.attempted(), 0);
}
