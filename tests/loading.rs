use xml2db::batch::{chunk_records, CHUNK_SIZE};
use xml2db::record::Record;
use xml2db::summary::{summarize, ChunkOutcome, RunSummary};

fn records(n: u32) -> Vec<Record> {
    (0..n).map(|i| Record::new(i, format!("N{i}"), 1000 + i as i64)).collect()
}

#[test]
fn two_hundred_fifty_records_make_three_chunks() {
    let rs = records(250);
    let cs = chunk_records(&rs, CHUNK_SIZE);
    let sizes: Vec<usize> = cs.iter().map(|c| c.len()).collect();
    assert_eq!(sizes, vec![100, 100, 50]);
    let outcomes = vec![ChunkOutcome::Inserted, ChunkOutcome::Inserted, ChunkOutcome::Inserted];
    let s = summarize(&cs, &outcomes);
    assert_eq!(s.attempted, 3);
    assert_eq!(s.succeeded, 3);
    assert_eq!(s.rows_persisted, 250);
    assert_eq!(s.failed(), 0);
}

#[test]
fn failed_middle_chunk_is_isolated() {
    let rs = records(250);
    let cs = chunk_records(&rs, CHUNK_SIZE);
    let outcomes = vec![
        ChunkOutcome::Inserted,
        ChunkOutcome::Failed { error: "Duplicate entry '100'".to_string(), statement: "INSERT INTO cards_cache".to_string() },
        ChunkOutcome::Inserted,
    ];
    let s = summarize(&cs, &outcomes);
    assert_eq!(s.attempted, 3);
    assert_eq!(s.succeeded, 2);
    assert_eq!(s.failed(), 1);
    assert_eq!(s.rows_persisted, 150);
    assert_eq!(s.failures[0].index, 1);
    assert_eq!(s.failures[0].error, "Duplicate entry '100'");
    assert_eq!(s.failures[0].statement, "INSERT INTO cards_cache");
}

#[test]
fn empty_input_gives_no_chunks_and_empty_summary() {
    let rs: Vec<Record> = Vec::new();
    let cs = chunk_records(&rs, CHUNK_SIZE);
    assert_eq!(cs.len(), 0);
    let s = summarize(&cs, &Vec::new());
    assert_eq!((s.attempted, s.succeeded, s.rows_persisted, s.failed()), (0, 0, 0, 0));
}

#[test]
fn chunks_put_back_together_are_the_records() {
    for (n, c) in [(0u32, 1usize), (1, 1), (7, 3), (9, 3), (10, 3), (5, 100), (201, 100)] {
        let rs = records(n);
        let cs = chunk_records(&rs, c);
        assert_eq!(cs.len(), (n as usize + c - 1) / c);
        let flat: Vec<(u32, String, i64)> =
            cs.iter().flatten().map(|r| (r.id, r.number.clone(), r.observed_at)).collect();
        let orig: Vec<(u32, String, i64)> = rs.iter().map(|r| (r.id, r.number.clone(), r.observed_at)).collect();
        assert_eq!(flat, orig);
        for (k, ch) in cs.iter().enumerate() {
            assert!(!ch.is_empty() && ch.len() <= c);
            if k + 1 < cs.len() {
                assert_eq!(ch.len(), c);
            }
        }
    }
}

#[test]
fn summary_records_one_outcome_at_a_time() {
    let mut s = RunSummary::new();
    s.record(3, &ChunkOutcome::Failed { error: "e".to_string(), statement: "s".to_string() });
    s.record(4, &ChunkOutcome::Inserted);
    assert_eq!((s.attempted, s.succeeded, s.rows_persisted, s.failed()), (2, 1, 4, 1));
    assert_eq!(s.failures[0].index, 0);
}

#[test]
fn duplicate_copies_every_field() {
    let r = Record::new(5, "five".to_string(), -3);
    let d = r.duplicate();
    assert_eq!((d.id, d.number.as_str(), d.observed_at), (5, "five", -3));
}
