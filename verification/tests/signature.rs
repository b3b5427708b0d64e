use pcfg::signature::{char_kind, CharKind, UnkSignature};

#[test]
fn test_signature() {
    assert_eq!("UNK".to_string(), UnkSignature::new("", 0).to_text());

    assert_eq!("UNK-AC".to_string(), UnkSignature::new("USA", 0).to_text());

    assert_eq!("UNK-SC".to_string(), UnkSignature::new("Me", 0).to_text());

    assert_eq!("UNK-C".to_string(), UnkSignature::new("Me", 1).to_text());

    assert_eq!("UNK-L".to_string(), UnkSignature::new("me", 1).to_text());

    assert_eq!("UNK-L".to_string(), UnkSignature::new("me", 1).to_text());

    assert_eq!("UNK-U-n".to_string(), UnkSignature::new("2U", 1).to_text());

    assert_eq!("UNK-S-N".to_string(), UnkSignature::new("7", 1).to_text());

    assert_eq!(
        "UNK-AC-H".to_string(),
        UnkSignature::new("A-Z", 1).to_text()
    );

    assert_eq!("UNK-C-P".to_string(), UnkSignature::new("Dr.", 1).to_text());

    assert_eq!("UNK-L-C".to_string(), UnkSignature::new("or,", 1).to_text());

    assert_eq!(
        "UNK-L-d".to_string(),
        UnkSignature::new("word", 1).to_text()
    );

    assert_eq!(
        "UNK-L-n".to_string(),
        UnkSignature::new("cloud9", 1).to_text()
    );
}

#[test]
fn signature_suffix_is_lowercased() {
    assert_eq!(
        "UNK-AC-d".to_string(),
        UnkSignature::new("WORD", 3).to_text()
    );
    // longer than three bytes, though only two characters
    assert_eq!("UNK-L-é".to_string(), UnkSignature::new("éé", 1).to_text());
    assert_eq!(
        "UNK-SC-H-P-C-s".to_string(),
        UnkSignature::new("A-b.c,s", 0).to_text()
    );
}

#[test]
fn signature_from_given_kinds() {
    let letter = CharKind {
        lowercase: true,
        uppercase: false,
        alphabetic: true,
        numeric: false,
    };
    let capital = CharKind {
        lowercase: false,
        uppercase: true,
        alphabetic: true,
        numeric: false,
    };
    let digit = CharKind {
        lowercase: false,
        uppercase: false,
        alphabetic: false,
        numeric: true,
    };
    let word: Vec<char> = "Ab1-".chars().collect();
    let other = CharKind {
        lowercase: false,
        uppercase: false,
        alphabetic: false,
        numeric: false,
    };
    let kinds = vec![capital, letter, digit, other];
    let signature = UnkSignature::from_kinds(&word, &kinds, true, "x".to_string(), 2);
    assert_eq!("UNK-C-n-H", signature.to_text());
    // the last character counts as a letter where the tables say so
    let kinds = vec![capital, letter, digit, letter];
    let signature = UnkSignature::from_kinds(&word, &kinds, true, "x".to_string(), 0);
    assert_eq!("UNK-SC-n-H-x", signature.to_text());
    let signature = UnkSignature::from_kinds(&word, &kinds, false, "x".to_string(), 0);
    assert_eq!("UNK-SC-n-H", signature.to_text());
    let none: Vec<char> = vec![];
    let signature = UnkSignature::from_kinds(&none, &vec![], true, "x".to_string(), 0);
    assert_eq!("UNK", signature.to_text());
}

#[test]
fn character_tables() {
    assert_eq!(
        CharKind {
            lowercase: true,
            uppercase: false,
            alphabetic: true,
            numeric: false
        },
        char_kind('a')
    );
    assert_eq!(
        CharKind {
            lowercase: false,
            uppercase: true,
            alphabetic: true,
            numeric: false
        },
        char_kind('Z')
    );
    assert_eq!(
        CharKind {
            lowercase: false,
            uppercase: false,
            alphabetic: false,
            numeric: true
        },
        char_kind('7')
    );
    assert_eq!(
        CharKind {
            lowercase: false,
            uppercase: false,
            alphabetic: false,
            numeric: false
        },
        char_kind('-')
    );
    // the lowercase form of a capital is another character
    assert_eq!("UNK-AC-ß", UnkSignature::new("ẞẞẞ", 0).to_text());
}
