use oxdna_trajectory_reader::dumps_confs;
use oxdna_trajectory_reader::read_confs;
use oxdna_trajectory_reader::read_offsets;
use oxdna_trajectory_reader::record::Configuration;
use oxdna_trajectory_reader::record::ErrField;
use oxdna_trajectory_reader::record::TrajError;
use oxdna_trajectory_reader::serialize::dumps_conf;

fn tok(s: &str) -> Vec<u8> {
    s.as_bytes().to_vec()
}

fn toks(ss: &[&str]) -> Vec<Vec<u8>> {
    ss.iter().map(|s| tok(s)).collect()
}

fn sample_file() -> Vec<u8> {
    let mut v = Vec::new();
    v.extend_from_slice(b"t = 0\n");
    v.extend_from_slice(b"b = 10.0 10.0 10.0\n");
    v.extend_from_slice(b"E = 1.0 2.0 3.0\n");
    v.extend_from_slice(b"0 0 0 0 0 0 0 0 0 0 0 0 0 0 0\n");
    v.extend_from_slice(b"t = 1\n");
    v.extend_from_slice(b"b = 10.0 10.0 10.0\n");
    v.extend_from_slice(b"E = 1.1 2.1 3.1\n");
    v.extend_from_slice(b"1 1 1 1 1 1 1 1 1 1 1 1 1 1 1\n");
    v
}

fn second_block_start(data: &[u8]) -> usize {
    // The first byte of the second `t = ` line.
    (1..data.len()).find(|&i| data[i] == b't' && data[i - 1] == b'\n').unwrap()
}

#[test]
fn literal_scenario_records() {
    let data = sample_file();
    let records = read_confs(&data, 0, 2).unwrap();
    assert_eq!(records.len(), 2);
    let (end0, c0) = &records[0];
    assert_eq!(*end0, second_block_start(&data));
    assert_eq!(c0.time, 0);
    assert_eq!(c0.cbox, toks(&["10.0", "10.0", "10.0"]));
    assert_eq!(c0.cenergy, toks(&["1.0", "2.0", "3.0"]));
    assert_eq!(c0.nucleotides, vec![toks(&["0"; 15])]);
    let (end1, c1) = &records[1];
    assert_eq!(*end1, data.len());
    assert_eq!(c1.time, 1);
    assert_eq!(c1.cenergy, toks(&["1.1", "2.1", "3.1"]));
    assert_eq!(c1.nucleotides, vec![toks(&["1"; 15])]);
}

#[test]
fn literal_scenario_offsets() {
    let data = sample_file();
    let offsets = read_offsets(&data, 0, 2);
    assert_eq!(offsets, vec![second_block_start(&data), data.len()]);
}

#[test]
fn round_trip_exact() {
    let conf = Configuration {
        time: 42,
        cbox: toks(&["10.5", "-0.25", "1e3"]),
        cenergy: toks(&["inf", "NaN", "-1.5e-7"]),
        nucleotides: vec![
            toks(&[
                "0.1", "0.2", "0.3", "1", "2", "3", "4", "5", "6", "7", "8", "9", "10", "11", "12",
            ]),
            toks(&["-1"; 15]),
        ],
    };
    let text = dumps_conf(&conf);
    let records = read_confs(&text, 0, 1).unwrap();
    assert_eq!(records.len(), 1);
    assert_eq!(records[0].0, text.len());
    assert_eq!(records[0].1, conf);
}

#[test]
fn serializer_exact_text() {
    let conf = Configuration {
        time: 7,
        cbox: toks(&["1", "2", "3"]),
        cenergy: toks(&["4", "5", "6"]),
        nucleotides: vec![toks(&["0"; 15])],
    };
    let text = dumps_conf(&conf);
    let expect = b"t = 7\nb = 1 2 3\nE = 4 5 6\n0 0 0 0 0 0 0 0 0 0 0 0 0 0 0\n".to_vec();
    assert_eq!(text, expect);
}

#[test]
fn serializer_no_particles() {
    let conf = Configuration {
        time: 0,
        cbox: toks(&["1", "2", "3"]),
        cenergy: toks(&["4", "5", "6"]),
        nucleotides: vec![],
    };
    assert_eq!(dumps_conf(&conf), b"t = 0\nb = 1 2 3\nE = 4 5 6\n".to_vec());
}

#[test]
fn batch_serialize_keeps_order() {
    let mut confs = Vec::new();
    for t in 0..20u64 {
        confs.push(Configuration {
            time: t,
            cbox: toks(&["1", "2", "3"]),
            cenergy: toks(&["4", "5", "6"]),
            nucleotides: vec![toks(&["0"; 15])],
        });
    }
    let blocks = dumps_confs(&confs);
    assert_eq!(blocks.len(), confs.len());
    for (i, conf) in confs.iter().enumerate() {
        assert_eq!(blocks[i], dumps_conf(conf));
    }
}

#[test]
fn bounded_read() {
    let data = sample_file();
    assert_eq!(read_confs(&data, 0, 0).unwrap().len(), 0);
    assert_eq!(read_confs(&data, 0, 1).unwrap().len(), 1);
    assert_eq!(read_confs(&data, 0, 2).unwrap().len(), 2);
    assert_eq!(read_confs(&data, 0, 5).unwrap().len(), 2);
    assert_eq!(read_offsets(&data, 0, 100).len(), 2);
}

#[test]
fn offsets_chain_to_next_block() {
    let data = sample_file();
    let offsets = read_offsets(&data, 0, 2);
    assert!(offsets[0] < offsets[1]);
    let resumed = read_confs(&data, offsets[0], 1).unwrap();
    assert_eq!(resumed.len(), 1);
    assert_eq!(resumed[0].1.time, 1);
    assert_eq!(resumed[0].0, data.len());
    let after_all = read_confs(&data, offsets[1], 1).unwrap();
    assert_eq!(after_all.len(), 0);
}

#[test]
fn mid_block_start_resynchronizes() {
    let data = sample_file();
    // An offset strictly inside the first block, past its marker line.
    let inside: usize = 8;
    assert_eq!(data[inside - 2], b'b');
    let from_inside = read_offsets(&data, inside, 2);
    let from_marker = read_offsets(&data, second_block_start(&data), 2);
    assert_eq!(from_inside, from_marker);
    assert_eq!(from_inside, vec![data.len()]);
}

#[test]
fn offset_past_end_is_empty() {
    let data = sample_file();
    assert_eq!(read_offsets(&data, data.len(), 5), Vec::<usize>::new());
    assert_eq!(read_offsets(&data, data.len() + 1000, 5), Vec::<usize>::new());
    assert_eq!(read_confs(&data, data.len(), 5).unwrap().len(), 0);
}

#[test]
fn empty_and_markerless_data() {
    assert_eq!(read_confs(&[], 0, 5).unwrap().len(), 0);
    let noise = b"no header here\njust noise\n".to_vec();
    assert_eq!(read_confs(&noise, 0, 5).unwrap().len(), 0);
    assert_eq!(read_offsets(&noise, 0, 5), Vec::<usize>::new());
}

#[test]
fn missing_energy_header() {
    let data = b"t = 0\nb = 1.0 2.0 3.0\n".to_vec();
    let err = read_confs(&data, 0, 1).unwrap_err();
    assert_eq!(err, TrajError::MissingHeader { field: ErrField::Energy });
}

#[test]
fn energy_header_wrong_prefix() {
    let data = b"t = 0\nb = 1.0 2.0 3.0\n0 0 0 0 0 0 0 0 0 0 0 0 0 0 0\n".to_vec();
    let err = read_confs(&data, 0, 1).unwrap_err();
    match err {
        TrajError::WrongPrefix { field, line } => {
            assert_eq!(field, ErrField::Energy);
            assert_eq!(line, b"0 0 0 0 0 0 0 0 0 0 0 0 0 0 0\n".to_vec());
        }
        other => panic!("unexpected error {:?}", other),
    }
}

#[test]
fn malformed_row_fourteen_fields() {
    let mut data = sample_file();
    data.extend_from_slice(b"t = 2\nb = 1 2 3\nE = 4 5 6\n");
    let bad_row = b"0 0 0 0 0 0 0 0 0 0 0 0 0 0";
    data.extend_from_slice(bad_row);
    data.push(b'\n');
    let err = read_confs(&data, 0, 3).unwrap_err();
    assert_eq!(
        err,
        TrajError::BadCount { field: ErrField::Nucleotide, text: bad_row.to_vec() }
    );
}

#[test]
fn unparsable_box_token() {
    let data = b"t = 0\nb = 1.0 x 3.0\nE = 4 5 6\n".to_vec();
    let err = read_confs(&data, 0, 1).unwrap_err();
    assert_eq!(
        err,
        TrajError::BadValue { field: ErrField::BoxDims, text: b"1.0 x 3.0".to_vec() }
    );
}

#[test]
fn repeated_delimiter_is_rejected() {
    // Splitting is on single spaces: a doubled space yields an empty token,
    // which fails numeric validation.
    let data = b"t = 0\nb = 1.0  2.0 3.0\nE = 4 5 6\n".to_vec();
    let err = read_confs(&data, 0, 1).unwrap_err();
    assert_eq!(
        err,
        TrajError::BadValue { field: ErrField::BoxDims, text: b"1.0  2.0 3.0".to_vec() }
    );
}

#[test]
fn lowest_indexed_failure_wins() {
    let data = b"t = zero\nb = 1 2 3\nE = 4 5 6\nt = one\nb = 1 2 3\nE = 4 5 6\n".to_vec();
    let err = read_confs(&data, 0, 2).unwrap_err();
    assert_eq!(err, TrajError::BadValue { field: ErrField::Time, text: b"zero".to_vec() });
}

#[test]
fn time_header_forms() {
    let ok = read_confs(b"t = +5\nb = 1 2 3\nE = 4 5 6\n", 0, 1).unwrap();
    assert_eq!(ok[0].1.time, 5);
    let ok = read_confs(b"t=5\nb = 1 2 3\nE = 4 5 6\n", 0, 1).unwrap();
    assert_eq!(ok[0].1.time, 5);
    // The value runs from the first `=` to the next one.
    let ok = read_confs(b"t = 5=9\nb = 1 2 3\nE = 4 5 6\n", 0, 1).unwrap();
    assert_eq!(ok[0].1.time, 5);
    let ok = read_confs(b"t = 18446744073709551615\nb = 1 2 3\nE = 4 5 6\n", 0, 1).unwrap();
    assert_eq!(ok[0].1.time, u64::MAX);
    let err = read_confs(b"t = 18446744073709551616\nb = 1 2 3\nE = 4 5 6\n", 0, 1).unwrap_err();
    assert_eq!(
        err,
        TrajError::BadValue { field: ErrField::Time, text: b"18446744073709551616".to_vec() }
    );
    let err = read_confs(b"t = -1\nb = 1 2 3\nE = 4 5 6\n", 0, 1).unwrap_err();
    assert_eq!(err, TrajError::BadValue { field: ErrField::Time, text: b"-1".to_vec() });
    let err = read_confs(b"t\nb = 1 2 3\nE = 4 5 6\n", 0, 1).unwrap_err();
    assert_eq!(err, TrajError::HeaderFormat { field: ErrField::Time, line: b"t\n".to_vec() });
}

#[test]
fn carriage_returns_are_trimmed() {
    let data = b"t = 5\r\nb = 1 2 3\r\nE = 4 5 6\r\n".to_vec();
    let ok = read_confs(&data, 0, 1).unwrap();
    assert_eq!(ok[0].1.time, 5);
    assert_eq!(ok[0].1.cbox, toks(&["1", "2", "3"]));
}

#[test]
fn last_line_without_newline() {
    let data = b"t = 9\nb = 1 2 3\nE = 4 5 6".to_vec();
    let ok = read_confs(&data, 0, 1).unwrap();
    assert_eq!(ok[0].0, data.len());
    assert_eq!(ok[0].1.time, 9);
    assert_eq!(ok[0].1.cenergy, toks(&["4", "5", "6"]));
}

#[test]
fn zero_particle_block_between_blocks() {
    let data = b"t = 1\nb = 1 2 3\nE = 4 5 6\nt = 2\nb = 1 2 3\nE = 4 5 6\n0 0 0 0 0 0 0 0 0 0 0 0 0 0 0\n".to_vec();
    let records = read_confs(&data, 0, 2).unwrap();
    assert_eq!(records.len(), 2);
    assert_eq!(records[0].1.nucleotides.len(), 0);
    assert_eq!(records[1].1.nucleotides.len(), 1);
}

#[test]
fn many_blocks_keep_file_order() {
    // Parsing is parallel; the output order must be file order regardless of
    // worker completion order.
    let mut data = Vec::new();
    for t in 0..200u64 {
        data.extend_from_slice(
            format!("t = {}\nb = 1 2 3\nE = 4 5 6\n0 0 0 0 0 0 0 0 0 0 0 0 0 0 0\n", t).as_bytes(),
        );
    }
    let records = read_confs(&data, 0, 200).unwrap();
    assert_eq!(records.len(), 200);
    for (i, (_, conf)) in records.iter().enumerate() {
        assert_eq!(conf.time, i as u64);
    }
    let offsets = read_offsets(&data, 0, 500);
    assert_eq!(offsets.len(), 200);
    for i in 1..offsets.len() {
        assert!(offsets[i - 1] < offsets[i]);
    }
}

#[test]
fn leading_noise_is_skipped() {
    let mut data = b"# comment line\nanother line\n".to_vec();
    data.extend_from_slice(&sample_file());
    let records = read_confs(&data, 0, 2).unwrap();
    assert_eq!(records.len(), 2);
    assert_eq!(records[0].1.time, 0);
}
