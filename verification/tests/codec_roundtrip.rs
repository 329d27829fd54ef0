use rae_dict::codec::{parse_found_string, render_found_string};
use rae_dict::dict::Dict;
use rae_dict::model::{Outcome, Value, ValueVariant};
use rae_dict::page::{Anchor, Block, Paragraph, ResultsPage};
use rae_dict::search::search;

fn para(style: &str, text: &str) -> Paragraph {
    Paragraph { style: Some(style.to_string()), text: text.to_string(), anchor: None }
}

fn lookup_found(blocks: Vec<Block>) -> Dict<ValueVariant> {
    let page =
        ResultsPage { text: "resultados".to_string(), first_anchor_text: None, blocks };
    match search(&page) {
        Ok(Outcome::Found(d)) => d,
        _ => panic!("expected a found outcome"),
    }
}

fn assert_same_value(a: &Value, b: &Value) {
    match (a, b) {
        (Value::Unique(x), Value::Unique(y)) => assert_eq!(x, y),
        (Value::List(x), Value::List(y)) => assert_eq!(x, y),
        _ => panic!("value shapes differ"),
    }
}

fn assert_same_variant(a: &ValueVariant, b: &ValueVariant) {
    match (a, b) {
        (ValueVariant::String(x), ValueVariant::String(y)) => assert_eq!(x, y),
        (ValueVariant::List(x), ValueVariant::List(y)) => assert_eq!(x, y),
        (ValueVariant::Mapping(x), ValueVariant::Mapping(y)) => {
            assert_eq!(x.len(), y.len());
            for i in 0..x.len() {
                assert_eq!(x.key_at(i), y.key_at(i));
                assert_same_value(x.value_at(i), y.value_at(i));
            }
        }
        _ => panic!("node shapes differ"),
    }
}

#[test]
fn round_trip_reproduces_the_mapping_in_order() {
    let d = lookup_found(vec![
        Block {
            leading_element: false,
            paragraphs: vec![
                para("j", "1.primer sentido"),
                para("k5", "forma compuesta"),
                para("m", "una acepción"),
            ],
        },
        Block { leading_element: true, paragraphs: vec![] },
        Block {
            leading_element: false,
            paragraphs: vec![
                para("j", "1.tercer bloque"),
                Paragraph {
                    style: Some("l4".to_string()),
                    text: "ir".to_string(),
                    anchor: Some(Anchor {
                        href: Some("/destino".to_string()),
                        text: "x".to_string(),
                        sup_text: String::new(),
                    }),
                },
            ],
        },
    ]);
    let text = render_found_string(&d);
    let (d2, rest) = parse_found_string(&text).expect("rendered text must parse");
    assert!(rest.is_empty());
    assert_eq!(d.len(), d2.len());
    for i in 0..d.len() {
        assert_eq!(d.key_at(i), d2.key_at(i));
        assert_same_variant(d.value_at(i), d2.value_at(i));
    }
}

#[test]
fn rendered_form_is_exact() {
    let d = lookup_found(vec![Block {
        leading_element: false,
        paragraphs: vec![para("j", "1.significado de prueba")],
    }]);
    let text = render_found_string(&d);
    assert_eq!(text, "F1;1:1M1;1:1U21:significado de prueba");
}

#[test]
fn parse_rejects_malformed_text() {
    assert!(parse_found_string("").is_none());
    assert!(parse_found_string("hola").is_none());
    assert!(parse_found_string("F1;1:1M1;1:1U99:corto").is_none());
    assert!(parse_found_string("F2;1:1S0:").is_none());
}
