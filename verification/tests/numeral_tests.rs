use lib::numeral::reads_as_number;

const SAMPLES: &[&str] = &[
    "", "0", "42", "1.5", "1.", ".5", ".", "-1", "+1", "+-1", "--1", "1e5", "1E5", "1e+5", "1e-5",
    "1e", "1e+", "e5", ".e5", "1.e5", ".5e5", "1.5.2", "1..", "inf", "INF", "Inf", "-inf", "+Infinity",
    "infinity", "infinit", "infinityy", "nan", "NaN", "-nan", "nana", "1 ", " 1", "1_000", "0x10",
    "1e5.5", "1ee5", "12abc", "١", "+", "-", "e", "E", "iNfInItY", "1.5E-10", "00.00",
];

#[test]
fn agrees_with_std_f64_parsing() {
    for s in SAMPLES {
        assert_eq!(reads_as_number(s), s.parse::<f64>().is_ok(), "on {:?}", s);
    }
}

#[test]
fn accepts_numerals_and_refuses_other_text() {
    assert!(reads_as_number("3.14"));
    assert!(reads_as_number("-nan"));
    assert!(!reads_as_number("1.2.3"));
    assert!(!reads_as_number(""));
}
