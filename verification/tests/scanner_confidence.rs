use provenance::scanner::parser::parse_annotations;

struct Rng(u64);

impl Rng {
    fn next_u64(&mut self) -> u64 {
        self.0 = self.0.wrapping_add(0x9e37_79b9_7f4a_7c15);
        let mut word = self.0;
        word = (word ^ (word >> 30)).wrapping_mul(0xbf58_476d_1ce4_e5b9);
        word = (word ^ (word >> 27)).wrapping_mul(0x94d0_49bb_1331_11eb);
        word ^ (word >> 31)
    }

    fn below(&mut self, bound: usize) -> usize {
        usize::try_from(self.next_u64() % bound as u64).unwrap()
    }
}

fn gen_score(rng: &mut Rng) -> f64 {
    const FIXED: [f64; 14] = [
        0.0,
        -0.0,
        1.0,
        0.5,
        f64::MIN_POSITIVE,
        -f64::MIN_POSITIVE,
        f64::EPSILON,
        1.0 - f64::EPSILON,
        1.0 + f64::EPSILON,
        -1.0,
        f64::NAN,
        f64::INFINITY,
        f64::NEG_INFINITY,
        f64::MAX,
    ];
    const SPREAD: usize = 1 << 20;

    match rng.below(3) {
        0 => FIXED[rng.below(FIXED.len())],
        1 => {
            let step = u32::try_from(rng.below(SPREAD)).unwrap();
            let width = u32::try_from(SPREAD).unwrap();
            (f64::from(step) / f64::from(width)).mul_add(1.5, -0.25)
        }
        _ => f64::from_bits(rng.next_u64()),
    }
}

fn graph_accepts(score: f64) -> bool {
    score.is_finite() && (0.0..=1.0).contains(&score)
}

#[test]
fn scanner_and_core_agree_on_which_confidences_are_in_range() {
    let mut rng = Rng(0x5eed_0003);
    let mut kept = 0;
    let mut refused = 0;
    for _ in 0..4096 {
        let score = gen_score(&mut rng);
        let written = format!("{score:?}");
        let read_back: f64 = written.parse().unwrap();
        let graph_accepts = graph_accepts(read_back);

        let parsed = parse_annotations(&format!(
            "@provenance confidence: {written}\n@provenance rule: RULE-001"
        ));
        let scanner_accepts = parsed.warnings.is_empty();

        assert_eq!(
            scanner_accepts, graph_accepts,
            "scanner and graph disagree on {written}"
        );
        let confidence: f64 = parsed.annotations[0]
            .confidence
            .as_deref()
            .map_or(1.0, |text| text.parse().unwrap());
        if graph_accepts {
            assert_eq!(
                confidence.to_bits(),
                read_back.to_bits(),
                "scanner altered an in-range confidence {written}"
            );
            kept += 1;
        } else {
            assert_eq!(
                parsed.warnings.len(),
                1,
                "scanner must emit one warning before falling back for {written}"
            );
            assert_eq!(parsed.warnings[0].line, 1);
            let expected_warning = if read_back.is_finite() {
                format!("confidence `{written}` is outside 0.0-1.0, using default")
            } else {
                format!("invalid confidence `{written}`, using default")
            };
            assert_eq!(parsed.warnings[0].message, expected_warning);
            assert!(
                (confidence - 1.0).abs() < f64::EPSILON,
                "scanner kept {confidence:?} for an out-of-range {written}"
            );
            refused += 1;
        }
    }
    assert!(
        kept >= 256 && refused >= 256,
        "{kept} kept and {refused} refused; the conformance check proves too little"
    );
}

#[test]
fn confidence_bounds_are_exact() {
    let cases = [
        ("1.00000000000000011102230246251565404236316680908203125", true),
        ("1.00000000000000011102230246251565404236316680908203126", false),
        ("-2.4703282292062327e-324", true),
        ("-2.4703282292062328e-324", false),
        ("0e99999999999999999999999", true),
        ("-1e-99999999999999999999999", true),
        ("1e-400", true),
        ("1.0", true),
        ("+0.25", true),
        (".5", true),
        ("5.", false),
    ];
    for (written, accepted) in cases {
        let parsed = parse_annotations(&format!("@provenance confidence: {written}\n@provenance rule: R"));
        assert_eq!(parsed.warnings.is_empty(), accepted, "{written}");
        let read_back: f64 = written.parse().unwrap();
        assert_eq!(graph_accepts(read_back), accepted, "{written}");
    }
    for written in ["1e309", "-1e99999999999999999999", "inf", "NaN", "-Infinity"] {
        let parsed = parse_annotations(&format!("@provenance confidence: {written}\n@provenance rule: R"));
        assert_eq!(parsed.warnings[0].message, format!("invalid confidence `{written}`, using default"));
    }
    let parsed = parse_annotations("@provenance confidence: 1.5\n@provenance rule: R");
    assert_eq!(parsed.warnings[0].message, "confidence `1.5` is outside 0.0-1.0, using default");
}
