use gugen::composition::{Composition, Element};
use gugen::error::GugenError;
use gugen::frac::Frac;

fn element(symbol: &str) -> Element {
    Element::new(symbol).unwrap()
}

fn whole(n: i128) -> Frac {
    Frac::new(n, 1).unwrap()
}

#[test]
fn rejects_unknown_symbol() {
    assert!(Element::new("Xx").is_err());
}

#[test]
fn rejects_empty_and_non_positive_amounts() {
    assert_eq!(Composition::new(vec![]), Err(GugenError::EmptyComposition));
    let ba = element("Ba");
    assert!(matches!(
        Composition::new(vec![(ba, whole(0))]),
        Err(GugenError::NonPositiveAmount { .. })
    ));
    assert!(matches!(
        Composition::new(vec![(ba, whole(-1))]),
        Err(GugenError::NonPositiveAmount { .. })
    ));
}

#[test]
fn iteration_order_is_independent_of_insertion_order() {
    let o = element("O");
    let ba = element("Ba");
    let ti = element("Ti");
    let a = Composition::new(vec![(ba, whole(1)), (ti, whole(1)), (o, whole(3))]).unwrap();
    let b = Composition::new(vec![(o, whole(3)), (ti, whole(1)), (ba, whole(1))]).unwrap();
    let order_a: Vec<&str> = a.elements().iter().map(|e| e.symbol()).collect();
    let order_b: Vec<&str> = b.elements().iter().map(|e| e.symbol()).collect();
    assert_eq!(order_a, order_b);
    assert_eq!(order_a, vec!["Ba", "O", "Ti"]);
    assert!(a.same_as(&b));
    assert_eq!(a, b);
}

#[test]
fn element_symbols_round_trip() {
    for symbol in ["H", "He", "Fe", "Og", "Zr", "Ac", "Uuo"] {
        match Element::new(symbol) {
            Ok(e) => assert_eq!(e.symbol(), symbol),
            Err(err) => {
                assert_eq!(symbol, "Uuo");
                assert_eq!(err, GugenError::InvalidElementSymbol("Uuo".to_string()));
            }
        }
    }
    assert!(Element::new("fe").is_err());
    assert!(Element::new("").is_err());
}

#[test]
fn a_later_amount_for_the_same_element_replaces_the_earlier_one() {
    let fe = element("Fe");
    let c = Composition::new(vec![(fe, whole(2)), (fe, whole(5))]).unwrap();
    assert_eq!(c.len(), 1);
    let a = c.amount_of(fe).unwrap();
    assert_eq!((a.numerator(), a.denominator()), (5, 1));
    assert_eq!(c.amount_of(element("O")), None);
}

#[test]
fn the_first_non_positive_amount_is_reported() {
    let err = Composition::new(vec![
        (element("Fe"), whole(1)),
        (element("O"), Frac::new(-3, 2).unwrap()),
        (element("Na"), whole(0)),
    ])
    .unwrap_err();
    assert_eq!(
        err,
        GugenError::NonPositiveAmount { element: "O".to_string(), numerator: -3, denominator: 2 }
    );
}
