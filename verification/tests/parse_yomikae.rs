use analysis_yomikae::Article;
use analysis_yomikae::LawContents;
use analysis_yomikae::LawText;
use analysis_yomikae::YomikaeError;
use analysis_yomikae::YomikaeInfo;
use analysis_yomikae::extract_yomikae;
use analysis_yomikae::parse_yomikae;

fn empty_article() -> Article {
    Article {
        article: String::new(),
        paragraph: None,
        item: None,
        sub_item: None,
        suppl_provision_title: None,
    }
}

fn test_article() -> Article {
    Article {
        article: String::from("test"),
        paragraph: None,
        item: None,
        sub_item: None,
        suppl_provision_title: None,
    }
}

fn text_law(contents: &str) -> LawText {
    LawText {
        article_info: empty_article(),
        contents: LawContents::Text(contents.to_string()),
    }
}

#[test]
fn lib_check1() {
    let lawtext = text_law("この場合において、第八百五十一条第四号中「被後見人を代表する」とあるのは、「被保佐人を代表し、又は被保佐人がこれをすることに同意する」と読み替えるものとする。");
    let article = test_article();
    let yomikae_info_lst = parse_yomikae(&lawtext, "test", &article).unwrap();
    assert_eq!(
        vec![YomikaeInfo {
            before_words: vec!["被後見人を代表する".to_string()],
            after_word: "被保佐人を代表し、又は被保佐人がこれをすることに同意する".to_string()
        }],
        yomikae_info_lst
    )
}

#[test]
fn lib_check2() {
    let lawtext = text_law("この場合において、同条中「子ども・子育て支援法（平成二十四年法律第六十五号）第六十九条」とあるのは「平成二十二年度等における子ども手当の支給に関する法律（平成二十二年法律第十九号）第二十条第一項の規定により適用される児童手当法の一部を改正する法律（平成二十四年法律第二十四号）附則第十一条の規定によりなおその効力を有するものとされた同法第一条の規定による改正前の児童手当法（昭和四十六年法律第七十三号）第二十条」と、「子ども・子育て拠出金」とあるのは「子ども手当拠出金」と読み替えるものとする。");
    let article = test_article();
    let yomikae_info_lst = parse_yomikae(&lawtext, "test", &article).unwrap();
    assert_eq!(
        vec![
            YomikaeInfo {
                before_words: vec![
                    "子ども・子育て支援法（平成二十四年法律第六十五号）第六十九条".to_string()
                ],
                after_word: "平成二十二年度等における子ども手当の支給に関する法律（平成二十二年法律第十九号）第二十条第一項の規定により適用される児童手当法の一部を改正する法律（平成二十四年法律第二十四号）附則第十一条の規定によりなおその効力を有するものとされた同法第一条の規定による改正前の児童手当法（昭和四十六年法律第七十三号）第二十条".to_string()
            },
            YomikaeInfo {
                before_words: vec!["子ども・子育て拠出金".to_string()],
                after_word: "子ども手当拠出金".to_string()
            }
        ],
        yomikae_info_lst
    )
}

#[test]
fn check2_2() {
    let lawtext = text_law("この場合において、同条中「子ども・子育て支援法（平成二十四年法律第六十五号）第六十九条」とあるのは「平成二十二年度等における子ども手当の支給に関する法律（平成二十二年法律第十九号）第二十条第一項の規定により適用される児童手当法の一部を改正する法律（平成二十四年法律第二十四号）附則第十一条の規定によりなおその効力を有するものとされた同法第一条の規定による改正前の児童手当法（昭和四十六年法律第七十三号）第二十条」と「子ども・子育て拠出金」とあるのは「子ども手当拠出金」と読み替えるものとする。");
    let article = test_article();
    let yomikae_info_lst = parse_yomikae(&lawtext, "test", &article).unwrap();
    assert_eq!(
        vec![
            YomikaeInfo {
                before_words: vec![
                    "子ども・子育て支援法（平成二十四年法律第六十五号）第六十九条".to_string()
                ],
                after_word: "平成二十二年度等における子ども手当の支給に関する法律（平成二十二年法律第十九号）第二十条第一項の規定により適用される児童手当法の一部を改正する法律（平成二十四年法律第二十四号）附則第十一条の規定によりなおその効力を有するものとされた同法第一条の規定による改正前の児童手当法（昭和四十六年法律第七十三号）第二十条".to_string()
            },
            YomikaeInfo {
                before_words: vec!["子ども・子育て拠出金".to_string()],
                after_word: "子ども手当拠出金".to_string()
            }
        ],
        yomikae_info_lst
    )
}

#[test]
fn lib_check3() {
    let lawtext = text_law("この場合において、同項中「それぞれ同項各号に定める者」とあり、及び同項第二号中「その者」とあるのは、「都道府県の教育委員会」と読み替えるものとする。");
    let article = test_article();
    let yomikae_info_lst = parse_yomikae(&lawtext, "test", &article).unwrap();
    assert_eq!(
        vec![YomikaeInfo {
            before_words: vec![
                "それぞれ同項各号に定める者".to_string(),
                "その者".to_string()
            ],
            after_word: "都道府県の教育委員会".to_string()
        }],
        yomikae_info_lst
    )
}

#[test]
fn check4() {
    let lawtext = text_law("この場合において、徴収法施行規則第二十七条及び第二十八条中「保険関係が成立した」とあるのは「失業保険法及び労働者災害補償保険法の一部を改正する法律及び労働保険の保険料の徴収等に関する法律の施行に伴う関係法律の整備等に関する法律（昭和四十四年法律第八十五号。以下「整備法」という。）第十八条第一項若しくは第二項、第十八条の二第一項若しくは第二項又は第十八条の三第一項若しくは第二項の規定による保険給付が行なわれることとなつた」と、「保険関係成立の日」とあるのは「当該保険給付が行なわれることとなつた日」と、徴収法施行規則第二十八条第一項中「全期間」とあるのは「整備法第十八条第一項若しくは第二項、第十八条の二第一項若しくは第二項又は第十八条の三第一項若しくは第二項の規定による保険給付が行なわれることとなつた日以後の期間（事業の終了する日前に失業保険法及び労働者災害補償保険法の一部を改正する法律及び労働保険の保険料の徴収等に関する法律の施行に伴う労働省令の整備等に関する省令（昭和四十七年労働省令第九号。以下「整備省令」という。）第八条の期間が経過するときは、その経過する日の前日までの期間）」と、徴収法施行規則第三十二条中「第二十七条から前条まで」とあるのは「第二十七条から第三十条まで」と、「法第十五条から法第十七条まで」とあるのは「法第十五条及び第十六条」と、「その事業の期間」とあるのは「整備法第十八条第一項若しくは第二項、第十八条の二第一項若しくは第二項又は第十八条の三第一項若しくは第二項の規定による保険給付が行なわれることとなつた日以後のその事業の期間（事業の終了する日前に整備省令第八条の期間が経過するときは、その経過する日の前日までの期間）」と読み替えるものとする。");
    let article = test_article();
    let yomikae_info_lst = parse_yomikae(&lawtext, "test", &article).unwrap();
    assert_eq!(
        vec![
            YomikaeInfo {
                before_words: vec!["保険関係が成立した".to_string()],
                after_word: "失業保険法及び労働者災害補償保険法の一部を改正する法律及び労働保険の保険料の徴収等に関する法律の施行に伴う関係法律の整備等に関する法律（昭和四十四年法律第八十五号。以下「整備法」という。）第十八条第一項若しくは第二項、第十八条の二第一項若しくは第二項又は第十八条の三第一項若しくは第二項の規定による保険給付が行なわれることとなつた".to_string()
            },
            YomikaeInfo {
                before_words: vec!["保険関係成立の日".to_string()],
                after_word: "当該保険給付が行なわれることとなつた日".to_string()
            },
            YomikaeInfo {
                before_words: vec!["全期間".to_string()],
                after_word: "整備法第十八条第一項若しくは第二項、第十八条の二第一項若しくは第二項又は第十八条の三第一項若しくは第二項の規定による保険給付が行なわれることとなつた日以後の期間（事業の終了する日前に失業保険法及び労働者災害補償保険法の一部を改正する法律及び労働保険の保険料の徴収等に関する法律の施行に伴う労働省令の整備等に関する省令（昭和四十七年労働省令第九号。以下「整備省令」という。）第八条の期間が経過するときは、その経過する日の前日までの期間）".to_string()
            },
            YomikaeInfo {
                before_words: vec!["第二十七条から前条まで".to_string()],
                after_word: "第二十七条から第三十条まで".to_string()
            },
            YomikaeInfo {
                before_words: vec!["法第十五条から法第十七条まで".to_string()],
                after_word: "法第十五条及び第十六条".to_string()
            },
            YomikaeInfo {
                before_words: vec!["その事業の期間".to_string()],
                after_word: "整備法第十八条第一項若しくは第二項、第十八条の二第一項若しくは第二項又は第十八条の三第一項若しくは第二項の規定による保険給付が行なわれることとなつた日以後のその事業の期間（事業の終了する日前に整備省令第八条の期間が経過するときは、その経過する日の前日までの期間）".to_string()
            }
        ],
        yomikae_info_lst
    )
}

#[test]
fn check5() {
    let lawtext = text_law("第百十三条の三十八の規定は、調査員養成研修について準用する。この場合において、同条第一項中「法第六十九条の三十三第一項」とあるのは「令第三十七条の七第一項」と、同項第五号中「前条」とあるのは「第百十三条の三十七」と、同条第二項中「令第三十五条の十六第一項第二号イ」とあるのは「令第三十七条の七第四項第三号イ」と、同条第三項中「令第三十五条の十六第一項第二号ロ」とあるのは「令第三十七条の七第四項第三号ロ」と、同条第四項中「令第三十五条の十六第一項第二号ハ」とあるのは「令第三十七条の七第四項第三号ハ」と「実務研修受講試験の合格年月日並びに研修の受講の開始年月日」とあるのは「研修の受講の開始年月日」と読み替えるものとする。");
    let article = test_article();
    let yomikae_info_lst = parse_yomikae(&lawtext, "test", &article).unwrap();
    assert_eq!(
        vec![
            YomikaeInfo {
                before_words: vec!["法第六十九条の三十三第一項".to_string()],
                after_word: "令第三十七条の七第一項".to_string()
            },
            YomikaeInfo {
                before_words: vec!["前条".to_string()],
                after_word: "第百十三条の三十七".to_string()
            },
            YomikaeInfo {
                before_words: vec!["令第三十五条の十六第一項第二号イ".to_string()],
                after_word: "令第三十七条の七第四項第三号イ".to_string()
            },
            YomikaeInfo {
                before_words: vec!["令第三十五条の十六第一項第二号ロ".to_string()],
                after_word: "令第三十七条の七第四項第三号ロ".to_string()
            },
            YomikaeInfo {
                before_words: vec!["令第三十五条の十六第一項第二号ハ".to_string()],
                after_word: "令第三十七条の七第四項第三号ハ".to_string()
            },
            YomikaeInfo {
                before_words: vec![
                    "実務研修受講試験の合格年月日並びに研修の受講の開始年月日".to_string()
                ],
                after_word: "研修の受講の開始年月日".to_string()
            }
        ],
        yomikae_info_lst
    )
}

// Two chained rules in one sentence come out in sentence order.
#[test]
fn multi_rule_chain() {
    let lawtext = text_law("「A」とあるのは「B」と、「C」とあるのは「D」と読み替える");
    let article = test_article();
    let yomikae_info_lst = parse_yomikae(&lawtext, "test", &article).unwrap();
    assert_eq!(
        vec![
            YomikaeInfo {
                before_words: vec!["A".to_string()],
                after_word: "B".to_string()
            },
            YomikaeInfo {
                before_words: vec!["C".to_string()],
                after_word: "D".to_string()
            }
        ],
        yomikae_info_lst
    )
}

// A further antecedent after the group was already closed is the hard error.
#[test]
fn parallel_after_closed_is_error() {
    let lawtext = text_law("同項中「あ」とあり、同項中「い」とある中「う」とあり、及び「え」とあるのは「お」と読み替えるものとする。");
    let article = test_article();
    let r = parse_yomikae(&lawtext, "test", &article);
    assert!(matches!(r, Err(YomikaeError::UnexpectedParallelWords(_))));
}

// A sentence whose quote structure cannot be resolved is rejected.
#[test]
fn unresolvable_brackets_is_error() {
    let lawtext = text_law("同条中「あとあるのは読み替えるものとする。");
    let article = test_article();
    let r = parse_yomikae(&lawtext, "test", &article);
    assert!(matches!(r, Err(YomikaeError::UnmatchedParen(_))));
}

// A sentence with a single quoted phrase segments on its own group; the
// chain walk completes without emitting a rule.
#[test]
fn single_pair_sentence_no_rule() {
    let lawtext = text_law("同条中「あ」とあるのは読み替えるものとする。");
    let article = test_article();
    let yomikae_info_lst = parse_yomikae(&lawtext, "test", &article).unwrap();
    assert!(yomikae_info_lst.is_empty());
}

// A sentence with quoted text but no completed chain yields no rules.
#[test]
fn no_rule_found_is_ok_empty() {
    let lawtext = text_law("同条中「あ」の規定は「い」の規定と同様とする。");
    let article = test_article();
    let yomikae_info_lst = parse_yomikae(&lawtext, "test", &article).unwrap();
    assert!(yomikae_info_lst.is_empty());
}

// Two-column row: the left cell is read as the right cell.
#[test]
fn table_two_columns() {
    let lawtext = LawText {
        article_info: empty_article(),
        contents: LawContents::Table(vec![vec!["X".to_string(), "Y".to_string()]]),
    };
    let article = test_article();
    let yomikae_info_lst = parse_yomikae(&lawtext, "test", &article).unwrap();
    assert_eq!(
        vec![YomikaeInfo {
            before_words: vec!["X".to_string()],
            after_word: "Y".to_string()
        }],
        yomikae_info_lst
    )
}

// Three-column row: the label column is ignored.
#[test]
fn table_three_columns() {
    let lawtext = LawText {
        article_info: empty_article(),
        contents: LawContents::Table(vec![vec![
            "lbl".to_string(),
            "X".to_string(),
            "Y".to_string(),
        ]]),
    };
    let article = test_article();
    let yomikae_info_lst = parse_yomikae(&lawtext, "test", &article).unwrap();
    assert_eq!(
        vec![YomikaeInfo {
            before_words: vec!["X".to_string()],
            after_word: "Y".to_string()
        }],
        yomikae_info_lst
    )
}

// A row of any other width is the table error.
#[test]
fn table_four_columns_is_error() {
    let lawtext = LawText {
        article_info: empty_article(),
        contents: LawContents::Table(vec![vec![
            "a".to_string(),
            "b".to_string(),
            "c".to_string(),
            "d".to_string(),
        ]]),
    };
    let article = test_article();
    let r = parse_yomikae(&lawtext, "test", &article);
    assert!(matches!(r, Err(YomikaeError::ContentsOfTable(_))));
}

// The span walker on an already segmented sentence.
#[test]
fn extract_from_spans() {
    let spans = vec![
        "".to_string(),
        "「あ」".to_string(),
        "とあるのは、".to_string(),
        "「い」".to_string(),
        "と読み替えるものとする。".to_string(),
    ];
    let rules = extract_yomikae(&spans).unwrap();
    assert_eq!(
        vec![YomikaeInfo {
            before_words: vec!["あ".to_string()],
            after_word: "い".to_string()
        }],
        rules
    );
}

// An empty quoted span still counts as an antecedent phrase.
#[test]
fn empty_quoted_antecedent() {
    let lawtext = text_law("「」とあるのは「い」と読み替える");
    let article = test_article();
    let yomikae_info_lst = parse_yomikae(&lawtext, "test", &article).unwrap();
    assert_eq!(
        vec![YomikaeInfo {
            before_words: vec!["".to_string()],
            after_word: "い".to_string()
        }],
        yomikae_info_lst
    )
}
