use run_megahit::classify::classify;
use run_megahit::extension::get_extension;
use run_megahit::jobs::{assembler_options, decimal_string, make_jobs};
use run_megahit::ReadDirection;

fn strings(v: &[&str]) -> Vec<String> {
    v.iter().map(|s| s.to_string()).collect()
}

#[test]
fn test_get_extension() {
    assert_eq!(get_extension("foo.fna"), Some("fna".to_string()));

    assert_eq!(get_extension("foo.fasta.gz"), Some("fasta.gz".to_string()));

    assert_eq!(get_extension("foo.fa.gz"), Some("fa.gz".to_string()));

    assert_eq!(get_extension("foo.fasta"), Some("fasta".to_string()));

    assert_eq!(get_extension("foo.fq"), Some("fq".to_string()));

    assert_eq!(get_extension("foo"), None);
}

#[test]
fn test_classify() {
    let (pairs, singles) = classify(&["ERR1711926.fastq.gz".to_string()]);
    assert_eq!(pairs.len(), 0);
    assert_eq!(singles.len(), 1);

    let (pairs, singles) = classify(&[
        "/foo/bar/ERR1711926_1.fastq.gz".to_string(),
        "/foo/bar/ERR1711926_2.fastq.gz".to_string(),
        "/foo/bar/ERR1711927-R1.fastq.gz".to_string(),
        "/foo/bar/ERR1711927_R2.fastq.gz".to_string(),
        "/foo/bar/ERR1711928.fastq.gz".to_string(),
        "/foo/bar/ERR1711929_1.fastq.gz".to_string(),
    ]);
    assert_eq!(pairs.len(), 2);
    assert_eq!(singles.len(), 2);

    assert!(pairs.contains_key("ERR1711926"));
    assert!(pairs.contains_key("ERR1711927"));

    if let Some(val) = pairs.get("ERR1711926") {
        assert!(val.contains_key(&ReadDirection::Forward));
        assert!(val.contains_key(&ReadDirection::Reverse));

        if let Some(fwd) = val.get(&ReadDirection::Forward) {
            assert_eq!(fwd, &"/foo/bar/ERR1711926_1.fastq.gz");
        }
        if let Some(rev) = val.get(&ReadDirection::Reverse) {
            assert_eq!(rev, &"/foo/bar/ERR1711926_2.fastq.gz");
        }
    }

    if let Some(val) = pairs.get("ERR1711927") {
        assert!(val.contains_key(&ReadDirection::Forward));
        assert!(val.contains_key(&ReadDirection::Reverse));

        if let Some(fwd) = val.get(&ReadDirection::Forward) {
            assert_eq!(fwd, &"/foo/bar/ERR1711927-R1.fastq.gz");
        }
        if let Some(rev) = val.get(&ReadDirection::Reverse) {
            assert_eq!(rev, &"/foo/bar/ERR1711927_R2.fastq.gz");
        }
    }
}

#[test]
fn extension_edge_cases() {
    assert_eq!(get_extension("foo.tar.bz2"), Some("bz2".to_string()));
    assert_eq!(get_extension("/a/b.c/foo"), None);
    assert_eq!(get_extension("/a/b/foo.fq/"), Some("fq".to_string()));
    assert_eq!(get_extension("foo."), None);
    assert_eq!(get_extension(".bashrc"), Some("bashrc".to_string()));
    assert_eq!(get_extension("x.gz"), Some("gz".to_string()));
    assert_eq!(get_extension("a..gz"), Some("gz".to_string()));
    assert_eq!(get_extension(""), None);
    assert_eq!(get_extension(".."), None);
    assert_eq!(get_extension("dir/.."), None);
    assert_eq!(get_extension("reads.fq/."), Some("fq".to_string()));
}

#[test]
fn single_dot_names_take_what_follows_the_dot() {
    for (name, ext) in [("a.b", "b"), ("sample.fastq", "fastq"), ("x.gz", "gz"), (".fq", "fq")] {
        assert_eq!(get_extension(name), Some(ext.to_string()));
    }
}

#[test]
fn classify_single_file_without_marker() {
    let (pairs, singles) = classify(&["ERR1711926.fastq.gz".to_string()]);
    assert!(pairs.is_empty());
    assert_eq!(singles, vec!["ERR1711926.fastq.gz".to_string()]);
}

#[test]
fn classify_mixed_batch_singles_content() {
    let paths = strings(&[
        "/foo/bar/ERR1711926_1.fastq.gz",
        "/foo/bar/ERR1711926_2.fastq.gz",
        "/foo/bar/ERR1711927-R1.fastq.gz",
        "/foo/bar/ERR1711927_R2.fastq.gz",
        "/foo/bar/ERR1711928.fastq.gz",
        "/foo/bar/ERR1711929_1.fastq.gz",
    ]);
    let (pairs, singles) = classify(&paths);
    assert_eq!(
        singles,
        strings(&["/foo/bar/ERR1711928.fastq.gz", "/foo/bar/ERR1711929_1.fastq.gz"])
    );
    assert_eq!(pairs.sample(0), "ERR1711926");
    assert_eq!(pairs.sample(1), "ERR1711927");
    assert!(!pairs.contains_key("ERR1711929"));
    assert!(pairs.get("ERR1711928").is_none());
}

#[test]
fn every_file_comes_out_once() {
    let paths = strings(&[
        "s1_1.fq",
        "s1_2.fq",
        "s2_R1.fq",
        "notes.txt",
        "s3-2.fq",
        "s3_1.fq",
        "lonely.fq",
        "dir/",
    ]);
    let (pairs, singles) = classify(&paths);
    let mut seen: Vec<String> = singles.clone();
    for j in 0..pairs.len() {
        let p = pairs.pair(j);
        seen.push(p.forward.clone().unwrap());
        seen.push(p.reverse.clone().unwrap());
    }
    let mut expected = paths.clone();
    expected.sort();
    seen.sort();
    assert_eq!(seen, expected);
}

#[test]
fn kept_samples_hold_both_directions() {
    let paths = strings(&["a_1.fq", "b_2.fq", "c_1.fq", "c_2.fq", "d_R.fq"]);
    let (pairs, singles) = classify(&paths);
    assert_eq!(pairs.len(), 1);
    for j in 0..pairs.len() {
        assert!(pairs.pair(j).is_complete());
    }
    assert_eq!(singles, strings(&["a_1.fq", "b_2.fq", "d_R.fq"]));
}

#[test]
fn classification_repeats() {
    let paths = strings(&["x_1.fa.gz", "x_2.fa.gz", "y_1.fa.gz", "z.fa.gz"]);
    let (first, first_singles) = classify(&paths);
    let (second, second_singles) = classify(&paths);
    assert_eq!(first.len(), second.len());
    for j in 0..first.len() {
        assert_eq!(first.sample(j), second.sample(j));
        assert_eq!(first.pair(j).forward, second.pair(j).forward);
        assert_eq!(first.pair(j).reverse, second.pair(j).reverse);
    }
    assert_eq!(first_singles, second_singles);
}

#[test]
fn missing_digit_reads_as_reverse() {
    let (pairs, singles) = classify(&strings(&["s_1.fq", "s_R.fq"]));
    assert_eq!(singles.len(), 0);
    let p = pairs.get("s").unwrap();
    assert_eq!(p.get(&ReadDirection::Forward).unwrap(), "s_1.fq");
    assert_eq!(p.get(&ReadDirection::Reverse).unwrap(), "s_R.fq");
}

#[test]
fn later_file_replaces_earlier_in_same_slot() {
    let (pairs, singles) = classify(&strings(&["/x/s_1.fq", "/y/s_1.fq", "/x/s_2.fq"]));
    assert_eq!(singles.len(), 0);
    let p = pairs.get("s").unwrap();
    assert_eq!(p.get(&ReadDirection::Forward).unwrap(), "/y/s_1.fq");
}

#[test]
fn sample_name_runs_to_last_separator() {
    let (pairs, _) = classify(&strings(&["a_b-c_1.fq", "a_b-c_2.fq"]));
    assert!(pairs.contains_key("a_b-c"));
    let (pairs, singles) = classify(&strings(&["a_1.fq", "a_2.fq.bak"]));
    assert_eq!(pairs.len(), 0);
    assert_eq!(singles.len(), 2);
}

#[test]
fn lowercase_marker_and_dash() {
    let (pairs, _) = classify(&strings(&["q-r1.fastq", "q-r2.fastq"]));
    let p = pairs.get("q").unwrap();
    assert!(p.is_complete());
    assert_eq!(p.get(&ReadDirection::Forward).unwrap(), "q-r1.fastq");
}

#[test]
fn extensionless_batch_matches_trailing_dot() {
    let (pairs, singles) = classify(&strings(&["m_1.", "m_2."]));
    assert_eq!(singles.len(), 0);
    assert!(pairs.contains_key("m"));
}

#[test]
fn empty_input() {
    let (pairs, singles) = classify(&Vec::<String>::new());
    assert!(pairs.is_empty());
    assert!(singles.is_empty());
}

#[test]
fn job_lines() {
    let (pairs, singles) = classify(&strings(&["/d/s_1.fq", "/d/s_2.fq", "/d/t.fq"]));
    let jobs = make_jobs("/out", "--k-min 21", &pairs, &singles);
    assert_eq!(
        jobs,
        strings(&[
            "megahit -o /out --k-min 21 -1 /d/s_1.fq -2 /d/s_2.fq",
            "megahit -o /out --k-min 21 -r /d/t.fq",
        ])
    );
    let jobs = make_jobs("o", "", &pairs, &[]);
    assert_eq!(jobs, strings(&["megahit -o o  -1 /d/s_1.fq -2 /d/s_2.fq"]));
}

#[test]
fn options_string() {
    assert_eq!(assembler_options(None, None, None, None, None, None), "");
    assert_eq!(
        assembler_options(Some(2), Some(21), Some(141), Some(12), Some(500), Some("0.5")),
        "--min-count 2 --k-min 21 --k-max 141 --k-step 12 --min-contig-len 500 --memory 0.5"
    );
    assert_eq!(assembler_options(None, Some(27), None, None, None, None), "--k-min 27");
    assert_eq!(
        assembler_options(None, None, None, None, Some(0), Some("1000000000")),
        "--min-contig-len 0 --memory 1000000000"
    );
}

#[test]
fn decimal_digits() {
    assert_eq!(decimal_string(0), "0");
    assert_eq!(decimal_string(7), "7");
    assert_eq!(decimal_string(10), "10");
    assert_eq!(decimal_string(4294967295), "4294967295");
}
