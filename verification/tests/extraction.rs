use rae_dict::model::{Outcome, Value, ValueVariant, WebScrapError};
use rae_dict::page::{Anchor, Block, Paragraph, ResultsPage};
use rae_dict::search::search;

fn para(style: &str, text: &str) -> Paragraph {
    Paragraph { style: Some(style.to_string()), text: text.to_string(), anchor: None }
}

fn para_link(style: &str, text: &str, href: &str, link_text: &str) -> Paragraph {
    Paragraph {
        style: Some(style.to_string()),
        text: text.to_string(),
        anchor: Some(Anchor {
            href: Some(href.to_string()),
            text: link_text.to_string(),
            sup_text: String::new(),
        }),
    }
}

fn block(paragraphs: Vec<Paragraph>) -> Block {
    Block { leading_element: false, paragraphs }
}

fn found_page(blocks: Vec<Block>) -> ResultsPage {
    ResultsPage { text: "resultados".to_string(), first_anchor_text: None, blocks }
}

#[test]
fn single_sense_block() {
    let page = found_page(vec![block(vec![para("j", "1.significado de prueba")])]);
    match search(&page) {
        Ok(Outcome::Found(d)) => {
            assert_eq!(d.len(), 1);
            assert_eq!(d.key_at(0).as_str(), "1");
            match d.value_at(0) {
                ValueVariant::Mapping(em) => {
                    assert_eq!(em.len(), 1);
                    assert_eq!(em.key_at(0).as_str(), "1");
                    match em.value_at(0) {
                        Value::Unique(s) => assert_eq!(s.as_str(), "significado de prueba"),
                        other => panic!("unexpected value {:?}", other_kind(other)),
                    }
                }
                _ => panic!("entry node is not a mapping"),
            }
        }
        _ => panic!("expected a found outcome"),
    }
}

fn other_kind(v: &Value) -> &'static str {
    match v {
        Value::List(_) => "list",
        Value::Unique(_) => "unique",
    }
}

#[test]
fn skipped_block_leaves_gap() {
    let page = found_page(vec![
        block(vec![para("j", "1.primera")]),
        Block { leading_element: true, paragraphs: vec![] },
        block(vec![para("j", "1.tercera")]),
    ]);
    match search(&page) {
        Ok(Outcome::Found(d)) => {
            assert_eq!(d.len(), 2);
            assert_eq!(d.key_at(0).as_str(), "1");
            assert_eq!(d.key_at(1).as_str(), "3");
        }
        _ => panic!("expected a found outcome"),
    }
}

#[test]
fn ambiguous_word_cut_at_comma() {
    let page = ResultsPage {
        text: "x La entrada que se muestra a continuación podría estar relacionada: y"
            .to_string(),
        first_anchor_text: Some("casa, f.".to_string()),
        blocks: vec![],
    };
    match search(&page) {
        Ok(Outcome::Ambiguous(w)) => assert_eq!(w.as_str(), "casa"),
        _ => panic!("expected an ambiguous outcome"),
    }
}

#[test]
fn ambiguous_word_without_comma() {
    let page = ResultsPage {
        text: " La entrada que se muestra a continuación podría estar relacionada:".to_string(),
        first_anchor_text: Some("perro".to_string()),
        blocks: vec![],
    };
    match search(&page) {
        Ok(Outcome::Ambiguous(w)) => assert_eq!(w.as_str(), "perro"),
        _ => panic!("expected an ambiguous outcome"),
    }
}

#[test]
fn ambiguous_without_anchor_fails() {
    let page = ResultsPage {
        text: " La entrada que se muestra a continuación podría estar relacionada:".to_string(),
        first_anchor_text: None,
        blocks: vec![],
    };
    assert!(matches!(search(&page), Err(WebScrapError::MissingAnchor)));
}

#[test]
fn not_found_notice() {
    let page = ResultsPage {
        text: "Aviso: La palabra casa no está en el Diccionario.".to_string(),
        first_anchor_text: None,
        blocks: vec![],
    };
    assert!(matches!(search(&page), Ok(Outcome::NotFound)));
}

#[test]
fn ambiguity_takes_precedence_over_not_found() {
    let page = ResultsPage {
        text: "Aviso: ... La entrada que se muestra a continuación podría estar relacionada:"
            .to_string(),
        first_anchor_text: Some("gato".to_string()),
        blocks: vec![],
    };
    assert!(matches!(search(&page), Ok(Outcome::Ambiguous(_))));
}

#[test]
fn header_collects_meanings_in_order() {
    let page = found_page(vec![block(vec![
        para("k5", "dar la lata"),
        para("m", "primera acepción"),
        para("m", "segunda acepción"),
    ])]);
    match search(&page) {
        Ok(Outcome::Found(d)) => match d.value_at(0) {
            ValueVariant::Mapping(em) => {
                assert_eq!(em.key_at(0).as_str(), "dar la lata");
                match em.value_at(0) {
                    Value::List(items) => {
                        assert_eq!(items.len(), 2);
                        assert_eq!(items[0].as_str(), "primera acepción");
                        assert_eq!(items[1].as_str(), "segunda acepción");
                    }
                    _ => panic!("header key does not hold a list"),
                }
            }
            _ => panic!("entry node is not a mapping"),
        },
        _ => panic!("expected a found outcome"),
    }
}

#[test]
fn meaning_before_header_is_fatal() {
    let page = found_page(vec![block(vec![para("m", "huérfana")])]);
    assert!(matches!(search(&page), Err(WebScrapError::MeaningWithoutHeader)));
}

#[test]
fn sense_without_separator_is_fatal() {
    let page = found_page(vec![block(vec![para("j", "sin separador")])]);
    assert!(matches!(search(&page), Err(WebScrapError::MissingSeparator)));
}

#[test]
fn missing_style_is_fatal() {
    let page = found_page(vec![block(vec![Paragraph {
        style: None,
        text: "x".to_string(),
        anchor: None,
    }])]);
    assert!(matches!(search(&page), Err(WebScrapError::MissingStyle)));
}

#[test]
fn unknown_style_is_fatal() {
    let page = found_page(vec![block(vec![para("n2", "etimología")])]);
    assert!(matches!(search(&page), Err(WebScrapError::UnknownStyle)));
}

#[test]
fn link_without_anchor_is_fatal() {
    let page = found_page(vec![block(vec![para("l2", "véase")])]);
    assert!(matches!(search(&page), Err(WebScrapError::MissingAnchor)));
}

#[test]
fn anchor_without_href_is_fatal() {
    let page = found_page(vec![block(vec![Paragraph {
        style: Some("l2".to_string()),
        text: "véase".to_string(),
        anchor: Some(Anchor { href: None, text: "otra".to_string(), sup_text: String::new() }),
    }])]);
    assert!(matches!(search(&page), Err(WebScrapError::MissingHref)));
}

#[test]
fn entry_link_routed_to_empty_compound_form() {
    let page = found_page(vec![block(vec![
        para("k6", "hacer caso"),
        para_link("l2", "véase", "/atender", "atender"),
    ])]);
    match search(&page) {
        Ok(Outcome::Found(d)) => match d.value_at(0) {
            ValueVariant::Mapping(em) => {
                assert_eq!(em.key_at(0).as_str(), "hacer caso");
                match em.value_at(0) {
                    Value::List(items) => {
                        assert_eq!(items.len(), 1);
                        assert_eq!(
                            items[0].as_str(),
                            "Véase 'atender' (https://dle.rae.es/atender )"
                        );
                    }
                    _ => panic!("header key does not hold a list"),
                }
            }
            _ => panic!("entry node is not a mapping"),
        },
        _ => panic!("expected a found outcome"),
    }
}

#[test]
fn entry_link_without_empty_list_becomes_also_see() {
    let page = found_page(vec![block(vec![
        para("j", "1.acepción"),
        para_link("l2", "véase", "/otra", "otra"),
    ])]);
    match search(&page) {
        Ok(Outcome::Found(d)) => match d.value_at(0) {
            ValueVariant::Mapping(em) => {
                assert_eq!(em.len(), 2);
                assert_eq!(em.key_at(0).as_str(), "1");
                assert_eq!(em.key_at(1).as_str(), "Véase también");
                match em.value_at(1) {
                    Value::Unique(s) => {
                        assert_eq!(s.as_str(), "'otra' (https://dle.rae.es/otra)")
                    }
                    _ => panic!("also-see key does not hold a single string"),
                }
            }
            _ => panic!("entry node is not a mapping"),
        },
        _ => panic!("expected a found outcome"),
    }
}

#[test]
fn other_links_collect_across_blocks() {
    let page = found_page(vec![
        block(vec![para_link("l3", "ir", "/primero", "x")]),
        block(vec![para_link("l", "ir", "/segundo", "y")]),
    ]);
    match search(&page) {
        Ok(Outcome::Found(d)) => {
            assert_eq!(d.len(), 3);
            assert_eq!(d.key_at(2).as_str(), "Envíos");
            match d.value_at(2) {
                ValueVariant::List(urls) => {
                    assert_eq!(urls.len(), 2);
                    assert_eq!(urls[0].as_str(), "https://dle.rae.es/primero");
                    assert_eq!(urls[1].as_str(), "https://dle.rae.es/segundo");
                }
                _ => panic!("submissions key does not hold a list"),
            }
        }
        _ => panic!("expected a found outcome"),
    }
}

#[test]
fn sense_definition_is_trimmed_and_overwrites() {
    let page = found_page(vec![block(vec![
        para("j", "1.  primera"),
        para("j", "1.segunda"),
        para("j2", "2.adj. otra.cosa"),
    ])]);
    match search(&page) {
        Ok(Outcome::Found(d)) => match d.value_at(0) {
            ValueVariant::Mapping(em) => {
                assert_eq!(em.len(), 2);
                match em.value_at(0) {
                    Value::Unique(s) => assert_eq!(s.as_str(), "segunda"),
                    _ => panic!("sense is not a single string"),
                }
                match em.value_at(1) {
                    Value::Unique(s) => assert_eq!(s.as_str(), "adj. otra.cosa"),
                    _ => panic!("sense is not a single string"),
                }
            }
            _ => panic!("entry node is not a mapping"),
        },
        _ => panic!("expected a found outcome"),
    }
}

#[test]
fn ten_blocks_sort_lexicographically() {
    let mut blocks = Vec::new();
    for n in 1..=10 {
        blocks.push(block(vec![para("j", &format!("{}.sentido", n))]));
    }
    let page = found_page(blocks);
    match search(&page) {
        Ok(Outcome::Found(d)) => {
            let keys: Vec<String> =
                (0..d.len()).map(|i| d.key_at(i).as_str().to_string()).collect();
            assert_eq!(keys, vec!["1", "10", "2", "3", "4", "5", "6", "7", "8", "9"]);
        }
        _ => panic!("expected a found outcome"),
    }
}
