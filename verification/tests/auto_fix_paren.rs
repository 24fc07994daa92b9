use analysis_yomikae::auto_fix_paren::auto_fix_paren;
use analysis_yomikae::auto_fix_paren::generate_split_pattern;
use analysis_yomikae::auto_fix_paren::Paren;
use analysis_yomikae::auto_fix_paren::ParenInfo;

#[test]
fn check_generate_split_pattern_1() {
    let v = vec![Paren::Open, Paren::Close, Paren::Open, Paren::Close];
    let v = v
        .iter()
        .map(|v| ParenInfo { v: v.clone(), pos: 0 })
        .collect::<Vec<_>>();
    let expected = vec![
        vec![
            vec![Paren::Open, Paren::Close],
            vec![Paren::Open, Paren::Close],
        ],
        vec![vec![Paren::Open, Paren::Close, Paren::Open, Paren::Close]],
    ]
    .iter()
    .map(|p| {
        p.iter()
            .map(|g| {
                g.iter()
                    .map(|v| ParenInfo { v: v.clone(), pos: 0 })
                    .collect::<Vec<_>>()
            })
            .collect::<Vec<_>>()
    })
    .collect::<Vec<_>>();
    let got = generate_split_pattern(&v);
    assert_eq!(got.len(), expected.len());
    for p in &expected {
        assert!(got.contains(p));
    }
    for p in &got {
        assert!(expected.contains(p));
    }
}

// あ「い」」う「え」」お「か「き」く」け」こ「さ「し」す」せ」そ「た」ち「つ」て」と「な」に「ぬ」ね」の
#[test]
fn check_generate_split_pattern_2() {
    let o = Paren::Open;
    let c = Paren::Close;
    let v = vec![
        o, c, c, o, c, c, o, o, c, c, c, o, o, c, c, c, o, c, o, c, c, o, c, o, c, c,
    ];
    let v = v
        .iter()
        .map(|v| ParenInfo { v: v.clone(), pos: 0 })
        .collect::<Vec<_>>();
    // 2^7 = 128
    assert_eq!(generate_split_pattern(&v).len(), 128)
}

#[test]
fn check_auto_fix_paren1() {
    assert_eq!(
        auto_fix_paren("あ「い」う「え」お").unwrap(),
        vec![
            "あ".to_string(),
            "「い」".to_string(),
            "う".to_string(),
            "「え」".to_string(),
            "お".to_string()
        ]
    );
}

#[test]
fn check_auto_fix_paren2() {
    assert_eq!(
        auto_fix_paren("あ「い」」う「え」」お").unwrap(),
        vec![
            "あ".to_string(),
            "「い」」".to_string(),
            "う".to_string(),
            "「え」」".to_string(),
            "お".to_string()
        ]
    );
}

#[test]
fn check_auto_fix_paren3() {
    assert_eq!(
        auto_fix_paren("あ「「い」う「「え」お").unwrap(),
        vec![
            "あ".to_string(),
            "「「い」".to_string(),
            "う".to_string(),
            "「「え」".to_string(),
            "お".to_string()
        ]
    );
}

#[test]
fn check_auto_fix_paren4() {
    assert_eq!(
        auto_fix_paren("あ「い」う」え」お「か」き」く」け").unwrap(),
        vec![
            "あ".to_string(),
            "「い」う」え」".to_string(),
            "お".to_string(),
            "「か」き」く」".to_string(),
            "け".to_string()
        ]
    );
}

#[test]
fn check_auto_fix_paren5() {
    assert_eq!(
        auto_fix_paren("あ「た」ち「つ」て」と「な」に「ぬ」ね」の").unwrap(),
        vec![
            "あ".to_string(),
            "「た」ち「つ」て」".to_string(),
            "と".to_string(),
            "「な」に「ぬ」ね」".to_string(),
            "の".to_string()
        ]
    );
}

#[test]
fn check_auto_fix_paren6() {
    assert_eq!(
        auto_fix_paren(
            "あ「い」」う「え」」お「か「き」く」け」こ「さ「し」す」せ」そ「た」ち「つ」て」と「な」に「ぬ」ね」の"
        )
        .unwrap(),
        vec![
            "あ".to_string(),
            "「い」」".to_string(),
            "う".to_string(),
            "「え」」".to_string(),
            "お".to_string(),
            "「か「き」く」け」".to_string(),
            "こ".to_string(),
            "「さ「し」す」せ」".to_string(),
            "そ".to_string(),
            "「た」ち「つ」て」".to_string(),
            "と".to_string(),
            "「な」に「ぬ」ね」".to_string(),
            "の".to_string(),
        ]
    );
}

#[test]
fn check_auto_fix_paren7() {
    assert_eq!(
        auto_fix_paren("あ「い」」う「え」」お「か」」き「く」け「こ」さ").unwrap(),
        vec![
            "あ".to_string(),
            "「い」」".to_string(),
            "う".to_string(),
            "「え」」".to_string(),
            "お".to_string(),
            "「か」」".to_string(),
            "き".to_string(),
            "「く」".to_string(),
            "け".to_string(),
            "「こ」".to_string(),
            "さ".to_string()
        ]
    );
}

#[test]
fn check_auto_fix_paren8() {
    assert_eq!(
        auto_fix_paren("あ「い」」う「え」」お「か」」き").unwrap(),
        vec![
            "あ".to_string(),
            "「い」」".to_string(),
            "う".to_string(),
            "「え」」".to_string(),
            "お".to_string(),
            "「か」」".to_string(),
            "き".to_string()
        ]
    );
}

#[test]
fn check_auto_fix_paren9() {
    assert_eq!(
        auto_fix_paren("あ「い」う「え（「お」）か」き").unwrap(),
        vec![
            "あ".to_string(),
            "「い」".to_string(),
            "う".to_string(),
            "「え（「お」）か」".to_string(),
            "き".to_string()
        ]
    );
}

#[test]
fn check_auto_fix_paren10() {
    assert_eq!(
        auto_fix_paren("あ「い」う「え（」お「か（」き").unwrap(),
        vec![
            "あ".to_string(),
            "「い」".to_string(),
            "う".to_string(),
            "「え（」".to_string(),
            "お".to_string(),
            "「か（」".to_string(),
            "き".to_string()
        ]
    );
}

// A sentence quoting a single phrase is one group on its own.
#[test]
fn auto_fix_paren_single_pair() {
    assert_eq!(
        auto_fix_paren("あ「い」う").unwrap(),
        vec!["あ".to_string(), "「い」".to_string(), "う".to_string()]
    );
}

// Adjacent groups need not be structurally identical.
#[test]
fn auto_fix_paren_unequal_adjacent_groups() {
    assert_eq!(
        auto_fix_paren("あ「い」う「「え」」お").unwrap(),
        vec![
            "あ".to_string(),
            "「い」".to_string(),
            "う".to_string(),
            "「「え」」".to_string(),
            "お".to_string()
        ]
    );
}

// A quote that never closes cannot be resolved.
#[test]
fn auto_fix_paren_unclosed_quote_fails() {
    assert!(auto_fix_paren("あ「いう").is_none());
}

// A close quote inside a balanced aside is no quotation boundary, even
// before any quotation has opened.
#[test]
fn auto_fix_paren_close_quote_inside_leading_aside() {
    assert_eq!(
        auto_fix_paren("（あ」い）う「え」").unwrap(),
        vec![
            "（あ」い）う".to_string(),
            "「え」".to_string(),
            "".to_string()
        ]
    );
}

// An open quote inside a balanced aside is dropped; the stray close quote
// after the aside leaves the structure unresolvable.
#[test]
fn auto_fix_paren_open_quote_inside_aside_fails() {
    assert!(auto_fix_paren("（あ「）い」").is_none());
}

// A quoted span never ends at a close quote that sits inside a balanced
// aside between two quotations.
#[test]
fn auto_fix_paren_aside_between_quotations() {
    assert_eq!(
        auto_fix_paren("あ「い」（う」え）お「か」き").unwrap(),
        vec![
            "あ".to_string(),
            "「い」".to_string(),
            "（う」え）お".to_string(),
            "「か」".to_string(),
            "き".to_string()
        ]
    );
}

// A sentence without any quote bracket is one literal span.
#[test]
fn auto_fix_paren_no_brackets() {
    assert_eq!(
        auto_fix_paren("ただの文です。").unwrap(),
        vec!["ただの文です。".to_string()]
    );
}

// Concatenating the spans restores the input exactly, and the spans
// alternate: odd count, quoted spans at odd indices with their delimiters.
#[test]
fn auto_fix_paren_reconstruction_and_alternation() {
    let input = "この場合において、「甲」とあるのは、「乙」と読み替えるものとする。";
    let spans = auto_fix_paren(input).unwrap();
    assert_eq!(spans.len() % 2, 1);
    assert_eq!(spans.concat(), input);
    for (i, s) in spans.iter().enumerate() {
        if i % 2 == 1 {
            assert!(s.chars().count() >= 2);
            assert_eq!(s.chars().next().unwrap(), '「');
            assert_eq!(s.chars().last().unwrap(), '」');
        }
    }
}
