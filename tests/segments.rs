use en::syntax::content::parser::segment::{atomize, segment};

#[test]
fn atomize_words() {
    let words = "    justification for  the actions   of those  who hold authority   inevitably dwindles  ";
    let actual = atomize(words);
    let expected = vec![
        " ",
        " ",
        " ",
        " ",
        "justification",
        " ",
        "for",
        " ",
        " ",
        "the",
        " ",
        "actions",
        " ",
        " ",
        " ",
        "of",
        " ",
        "those",
        " ",
        " ",
        "who",
        " ",
        "hold",
        " ",
        "authority",
        " ",
        " ",
        " ",
        "inevitably",
        " ",
        "dwindles",
        " ",
        " ",
    ];
    assert_eq!(actual, expected);
}

#[test]
fn atomize_ticks_no_spaces() {
    let s = "a`c`adc`dadcdbd`cdb`dcdb`dc`dad`bdc";
    let actual = atomize(s);
    let expected = vec![
        "a", "`", "c", "`", "adc", "`", "dadcdbd", "`", "cdb", "`",
        "dcdb", "`", "dc", "`", "dad", "`", "bdc",
    ]
    .iter()
    .map(std::string::ToString::to_string)
    .collect::<Vec<String>>();

    assert_eq!(actual, expected);
}

#[test]
fn atomize_ticks_with_spaces() {
    let s = "a`c`adc`da dcdb d` cdb` dcdb `dc ` d ad ` bdc";

    let actual = atomize(s);
    let expected = vec![
        "a", "`", "c", "`", "adc", "`", "da", " ", "dcdb", " ", "d",
        "`", " ", "cdb", "`", " ", "dcdb", " ", "`", "dc", " ", "`",
        " ", "d", " ", "ad", " ", "`", " ", "bdc",
    ]
    .iter()
    .map(std::string::ToString::to_string)
    .collect::<Vec<String>>();
    assert_eq!(actual, expected);
}

#[test]
fn atomize_pipes() {
    let s = "every other |time| as it was perceived";
    let actual = atomize(s);
    let expected = vec![
        "every",
        " ",
        "other",
        " ",
        "|",
        "time",
        "|",
        " ",
        "as",
        " ",
        "it",
        " ",
        "was",
        " ",
        "perceived",
    ];
    assert_eq!(actual, expected);
}

#[test]
fn atomize_pipes_and_ticks() {
    let s = "every other |time| as `it could or |perhaps somehow|then or now| it was` perceived";
    let actual = atomize(s);
    let expected = vec![
        "every",
        " ",
        "other",
        " ",
        "|",
        "time",
        "|",
        " ",
        "as",
        " ",
        "`",
        "it",
        " ",
        "could",
        " ",
        "or",
        " ",
        "|",
        "perhaps",
        " ",
        "somehow",
        "|",
        "then",
        " ",
        "or",
        " ",
        "now",
        "|",
        " ",
        "it",
        " ",
        "was",
        "`",
        " ",
        "perceived",
    ];
    assert_eq!(actual, expected);
}

#[test]
fn atomize_newlines() {
    let s = "a`c`adc`da \ndcdb d` cdb` dc\ndb `dc ` d ad ` bdc";

    let actual = atomize(s);
    let expected = vec![
        "a", "`", "c", "`", "adc", "`", "da", " ", "\n", "dcdb", " ",
        "d", "`", " ", "cdb", "`", " ", "dc", "\n", "db", " ", "`",
        "dc", " ", "`", " ", "d", " ", "ad", " ", "`", " ", "bdc",
    ]
    .iter()
    .map(std::string::ToString::to_string)
    .collect::<Vec<String>>();
    assert_eq!(actual, expected);
}

#[test]
fn segment_empty() {
    assert!(segment("").is_empty());
}

#[test]
fn segment_rejoins() {
    let text = "a|b` c\nd  e";
    assert_eq!(segment(text).concat(), text);
}
