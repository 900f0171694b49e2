use d2min::error::TrajError;
use d2min::header::{decode_header, encode_header, is_float_literal, parse_usize, Parameters};

fn decode(text: &str) -> Result<(d2min::header::Parameters, usize), TrajError> {
    decode_header(text.as_bytes())
}

#[test]
fn header_round_trip() {
    // Encode six known values as header text, decode, and compare.
    let text = format!("{}\n{}\n{}\n{}\n{}\n{}\n", 4, 20, 5, 2, 0.01f32, 1.5f32);
    let (p, used) = decode(&text).unwrap();
    assert_eq!(p.particle_count, 4);
    assert_eq!(p.total_steps, 20);
    assert_eq!(p.snapshot_interval, 5);
    assert_eq!(p.dimensions, 2);
    assert_eq!(used, text.len());
    // The float fields round-trip through their retained text exactly.
    let dt: f32 = String::from_utf8(p.timestep_text.clone()).unwrap().parse().unwrap();
    let range: f32 = String::from_utf8(p.interaction_range_text.clone()).unwrap().parse().unwrap();
    assert_eq!(dt, 0.01f32);
    assert_eq!(range, 1.5f32);
    // Re-encoding the decoded values gives back the identical header text.
    let re = format!(
        "{}\n{}\n{}\n{}\n{}\n{}\n",
        p.particle_count,
        p.total_steps,
        p.snapshot_interval,
        p.dimensions,
        String::from_utf8(p.timestep_text.clone()).unwrap(),
        String::from_utf8(p.interaction_range_text.clone()).unwrap(),
    );
    assert_eq!(re, text);
}

#[test]
fn new_parameters_are_zeroed() {
    let p = Parameters::new();
    assert_eq!(p.particle_count, 0);
    assert_eq!(p.total_steps, 0);
    assert_eq!(p.snapshot_interval, 0);
    assert_eq!(p.dimensions, 0);
    assert!(p.timestep_text.is_empty());
    assert!(p.interaction_range_text.is_empty());
}

#[test]
fn header_encode_decode_round_trip() {
    let p = Parameters {
        particle_count: 4,
        total_steps: 20,
        snapshot_interval: 5,
        dimensions: 2,
        timestep_text: b"0.01".to_vec(),
        interaction_range_text: b"1.5".to_vec(),
    };
    let text = encode_header(&p);
    assert_eq!(text, b"4\n20\n5\n2\n0.01\n1.5\n".to_vec());
    let (q, used) = decode_header(&text).unwrap();
    assert_eq!(used, text.len());
    assert_eq!(q.particle_count, p.particle_count);
    assert_eq!(q.total_steps, p.total_steps);
    assert_eq!(q.snapshot_interval, p.snapshot_interval);
    assert_eq!(q.dimensions, p.dimensions);
    assert_eq!(q.timestep_text, p.timestep_text);
    assert_eq!(q.interaction_range_text, p.interaction_range_text);
}

#[test]
fn header_concrete_scenario_values() {
    let (p, used) = decode("4\n20\n5\n2\n0.01\n1.5\n").unwrap();
    assert_eq!(
        (p.particle_count, p.total_steps, p.snapshot_interval, p.dimensions),
        (4, 20, 5, 2)
    );
    assert_eq!(used, "4\n20\n5\n2\n0.01\n1.5\n".len());
    assert_eq!(p.timestep_text, b"0.01".to_vec());
    assert_eq!(p.interaction_range_text, b"1.5".to_vec());
}

#[test]
fn header_crlf_lines() {
    let (p, _) = decode("4\r\n20\r\n5\r\n2\r\n0.01\r\n1.5\r\n").unwrap();
    assert_eq!(p.particle_count, 4);
    assert_eq!(p.interaction_range_text, b"1.5".to_vec());
}

#[test]
fn header_missing_line() {
    assert_eq!(decode("").unwrap_err(), TrajError::IoMissingHeaderLine(0));
    assert_eq!(decode("4\n20\n5\n2\n0.01\n").unwrap_err(), TrajError::IoMissingHeaderLine(5));
    // A sixth field without its newline is still a missing line.
    assert_eq!(decode("4\n20\n5\n2\n0.01\n1.5").unwrap_err(), TrajError::IoMissingHeaderLine(5));
}

#[test]
fn header_parse_errors() {
    assert_eq!(decode("abc\n20\n5\n2\n0.01\n1.5\n").unwrap_err(), TrajError::ParseHeader(0));
    assert_eq!(decode("4\n-20\n5\n2\n0.01\n1.5\n").unwrap_err(), TrajError::ParseHeader(1));
    assert_eq!(decode("4\n20\n5\n2\nx.y\n1.5\n").unwrap_err(), TrajError::ParseHeader(4));
    assert_eq!(decode("4\n20\n5\n2\n0.01\n\n").unwrap_err(), TrajError::ParseHeader(5));
    // Integer overflow of the machine word is a conversion failure.
    assert_eq!(
        decode("99999999999999999999999999\n20\n5\n2\n0.01\n1.5\n").unwrap_err(),
        TrajError::ParseHeader(0)
    );
}

#[test]
fn header_domain_errors() {
    assert_eq!(decode("0\n20\n5\n2\n0.01\n1.5\n").unwrap_err(), TrajError::ParseHeader(0));
    assert_eq!(decode("4\n20\n0\n2\n0.01\n1.5\n").unwrap_err(), TrajError::ParseHeader(2));
    assert_eq!(decode("4\n20\n5\n0\n0.01\n1.5\n").unwrap_err(), TrajError::ParseHeader(3));
}

#[test]
fn parse_usize_forms() {
    assert_eq!(parse_usize(b"0"), Some(0));
    assert_eq!(parse_usize(b"+42"), Some(42));
    assert_eq!(parse_usize(b"18446744073709551615"), Some(usize::MAX));
    assert_eq!(parse_usize(b"18446744073709551616"), None);
    assert_eq!(parse_usize(b""), None);
    assert_eq!(parse_usize(b"+"), None);
    assert_eq!(parse_usize(b" 1"), None);
    assert_eq!(parse_usize(b"1 "), None);
    assert_eq!(parse_usize(b"-1"), None);
}

#[test]
fn float_literal_grammar() {
    for ok in ["0.01", "1.5", "1", "+3.", ".5", "1e5", "1.5E-3", "-2.25e+10", "inf", "-Infinity",
        "NaN", "nan"] {
        assert!(is_float_literal(ok.as_bytes()), "{ok}");
        // Everything the grammar accepts, the standard parser accepts too.
        assert!(ok.parse::<f32>().is_ok(), "{ok}");
    }
    for bad in ["", ".", "1.2.3", "1e", "e5", "+-1", "1f", "0x10", " 1", "in", "infinit"] {
        assert!(!is_float_literal(bad.as_bytes()), "{bad}");
        assert!(bad.parse::<f32>().is_err(), "{bad}");
    }
}
