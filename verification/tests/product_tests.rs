use recibo::product::{
    calculate_total_from_products, extract_by_type, Product, MONEY_SCALE,
};

fn beer() -> Product {
    Product {
        date: "2021-01-01".to_owned(),
        product: "Cerveza".to_owned(),
        product_type: "Bebida".to_owned(),
        place: "Bar".to_owned(),
        price: Some(2 * MONEY_SCALE),
    }
}

#[test]
fn test_extract_by_type() {
    let mut products = vec![beer(), beer(), beer(), beer(), beer()];
    let beverages = extract_by_type(&mut products, "Bebida");

    assert_eq!(beverages.unwrap().len(), 5);
    assert_eq!(products.len(), 0);
}

#[test]
fn test_extract_by_type_mut() {
    let mut products = vec![
        beer(),
        beer(),
        beer(),
        beer(),
        Product {
            date: "2021-01-01".to_owned(),
            product: "IVA".to_owned(),
            product_type: "Impuestos".to_owned(),
            place: "Bar".to_owned(),
            price: Some(2 * MONEY_SCALE),
        },
    ];
    let beverages = extract_by_type(&mut products, "Bebida");

    assert_eq!(beverages.unwrap().len(), 4);
    assert_eq!(products.len(), 1);
}

#[test]
fn extract_by_type_keeps_everything_when_nothing_matches() {
    let mut products = vec![beer(), beer()];
    let taken = extract_by_type(&mut products, "Impuestos");
    assert!(taken.is_none());
    assert_eq!(products.len(), 2);
}

#[test]
fn totals_treat_an_absent_price_as_zero() {
    let mut p = beer();
    p.price = None;
    let products = vec![p, beer()];
    assert_eq!(calculate_total_from_products(&products), 2 * MONEY_SCALE);
}

#[test]
fn show_writes_the_price_with_two_decimals() {
    let p = beer();
    assert_eq!(p.show(), "2.00");
    let mut p = beer();
    p.price = Some(123456);
    assert_eq!(p.show(), "12.35");
    p.price = Some(50);
    assert_eq!(p.show(), "0.01");
    p.price = None;
    assert_eq!(p.show(), "0.00");
}

#[test]
fn show_all_writes_every_field() {
    let p = beer();
    assert_eq!(p.show_all(), "2021-01-01 \"Cerveza\" Bebida \"Bar\" 2.00");
}
