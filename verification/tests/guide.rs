use merchants_guide::error::Error;
use merchants_guide::merchants_guide::MerchantsGuide;

#[test]
fn test_invalid_inputs() {
    let mut g = MerchantsGuide::new();

    assert!(g.handle_input("glob is II").is_err());
    assert!(g.handle_input("teesh is III").is_err());
    g.handle_input("phisk is I").unwrap();
    assert!(g.handle_input("phisk is V").is_err());
    assert!(g.handle_input("test test2 is V").is_err());
    assert!(g.handle_input("how much is te ter tem ?").is_err());
    assert!(g.handle_input("how many is phisk?").is_err());
}

#[test]
fn test_input() {
    let mut g = MerchantsGuide::new();

    g.handle_input("glob is I").unwrap();
    g.handle_input("prok is V").unwrap();
    g.handle_input("pish is X").unwrap();
    g.handle_input("tegj is L").unwrap();
    g.handle_input("glob glob Silver is 34 Credits").unwrap();
    g.handle_input("glob prok Gold is 57800 Credits").unwrap();
    g.handle_input("pish pish Iron is 3910 Credits").unwrap();

    assert_eq!(
        g.handle_input("how much is pish tegj glob glob ?").unwrap(),
        Some("pish tegj glob glob is 42".into())
    );

    assert_eq!(
        g.handle_input("how many Credits is glob prok Silver ?")
            .unwrap(),
        Some("glob prok Silver is 68 Credits".into())
    );

    assert_eq!(
        g.handle_input("how many Credits is glob prok Gold ?")
            .unwrap(),
        Some("glob prok Gold is 57800 Credits".into())
    );

    assert_eq!(
        g.handle_input("how many Credits is glob prok Iron ?")
            .unwrap(),
        Some("glob prok Iron is 782 Credits".into())
    );
    if let Err(err) = g
        .handle_input("how much wood could a woodchuck chuck if a woodchuck could chuck wood ?")
    {
        assert_eq!(
            err.into_generic(),
            "I have no idea what you are talking about".to_string()
        );
    } else {
        panic!("how much wood could a woodchuck chuck if a woodchuck could chuck wood ? should fail");
    }
}

#[test]
fn test_statement_error_kinds() {
    let mut g = MerchantsGuide::new();
    assert!(matches!(
        g.handle_input("glob is Q"),
        Err(Error::InvalidSymbol(_))
    ));
    assert!(matches!(
        g.handle_input("glob Silver is twelve Credits"),
        Err(Error::NumberFormat(_))
    ));
    assert!(matches!(
        g.handle_input("no separator here"),
        Err(Error::InvalidInput(_))
    ));
    g.handle_input("glob is I").unwrap();
    assert!(matches!(
        g.handle_input("glob is I"),
        Err(Error::InvalidInput(_))
    ));
    assert!(matches!(
        g.handle_input("two words is V"),
        Err(Error::InvalidInput(_))
    ));
}

#[test]
fn test_invalid_numeral_in_question() {
    let mut g = MerchantsGuide::new();
    g.handle_input("a is I").unwrap();
    g.handle_input("b is V").unwrap();
    assert!(matches!(
        g.handle_input("how much is b a b ?"),
        Err(Error::InvalidNumeral(_))
    ));
    assert!(matches!(
        g.handle_input("how much is a a a a ?"),
        Err(Error::InvalidNumeral(_))
    ));
}

#[test]
fn test_unit_word_count_is_enforced() {
    let mut g = MerchantsGuide::new();
    g.handle_input("glob is I").unwrap();
    g.handle_input("prok is V").unwrap();
    g.handle_input("glob glob Silver is 34 Credits").unwrap();
    g.handle_input("glob prok Gold is 57800 Credits").unwrap();

    // zero unit words: every word is a numeral word
    assert!(matches!(
        g.handle_input("how many Credits is glob prok ?"),
        Err(Error::InvalidInput(_))
    ));
    // two distinct unit words
    assert!(matches!(
        g.handle_input("how many Credits is glob Silver Gold ?"),
        Err(Error::InvalidInput(_))
    ));
    // a unit word that no stored credit phrase contains
    assert!(matches!(
        g.handle_input("how many Credits is glob Copper ?"),
        Err(Error::InvalidInput(_))
    ));
}

#[test]
fn test_fractional_credit_value() {
    let mut g = MerchantsGuide::new();
    g.handle_input("glob is I").unwrap();
    g.handle_input("glob glob Silver is 3 Credits").unwrap();
    assert_eq!(
        g.handle_input("how many Credits is glob Silver ?").unwrap(),
        Some("glob Silver is 1.5 Credits".into())
    );
}

#[test]
fn test_nonterminating_fraction_kept_exact() {
    let mut g = MerchantsGuide::new();
    g.handle_input("glob is I").unwrap();
    g.handle_input("glob glob glob Silver is 1 Credits").unwrap();
    assert_eq!(
        g.handle_input("how many Credits is glob Silver ?").unwrap(),
        Some("glob Silver is 1/3 Credits".into())
    );
}

#[test]
fn test_negative_and_signed_amounts() {
    let mut g = MerchantsGuide::new();
    g.handle_input("glob is I").unwrap();
    g.handle_input("glob Silver is -5 Credits").unwrap();
    g.handle_input("glob Gold is +7 Credits").unwrap();
    assert_eq!(
        g.handle_input("how many Credits is glob Silver ?").unwrap(),
        Some("glob Silver is -5 Credits".into())
    );
    assert_eq!(
        g.handle_input("how many Credits is glob Gold ?").unwrap(),
        Some("glob Gold is 7 Credits".into())
    );
}

#[test]
fn test_credit_phrase_overwrite() {
    let mut g = MerchantsGuide::new();
    g.handle_input("glob is I").unwrap();
    g.handle_input("glob glob Silver is 34 Credits").unwrap();
    g.handle_input("glob glob Silver is 40 Credits").unwrap();
    assert_eq!(
        g.handle_input("how many Credits is glob glob Silver ?")
            .unwrap(),
        Some("glob glob Silver is 40 Credits".into())
    );
}

#[test]
fn test_statement_returns_no_output() {
    let mut g = MerchantsGuide::new();
    assert_eq!(g.handle_input("glob is I").unwrap(), None);
    assert_eq!(g.handle_input("glob Silver is 10 Credits").unwrap(), None);
}
