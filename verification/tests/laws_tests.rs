use recibo::invoice::{Invoice, VAT_DEN, VAT_NUM};
use recibo::product::{Product, MONEY_SCALE};
use recibo::reader::read_file;

fn item(name: &str, kind: &str, price: Option<u64>) -> Product {
    Product {
        date: "2021-01-01".to_owned(),
        product: name.to_owned(),
        product_type: kind.to_owned(),
        place: "Bar".to_owned(),
        price,
    }
}

#[test]
fn empty_input_gives_zero_totals_and_no_failure() {
    let products = read_file("");
    assert_eq!(products.len(), 0);
    let mut invoice = Invoice::new(products);
    invoice.calculate_taxes();
    assert_eq!(invoice.total_products(), 0);
    assert_eq!(invoice.total_tips(), 0);
    assert_eq!(invoice.total_taxes(), 0);
    assert_eq!(invoice.calculate_total(), 0);
}

#[test]
fn classification_of_copies_gives_identical_groups() {
    let build = || {
        vec![
            item("Pan", "Comida", Some(35000)),
            item("Servicio", "Propina", Some(12000)),
            item("IVA", "Impuestos", Some(5600)),
            item("Vino", "Alcohol", None),
        ]
    };
    let a = Invoice::new(build());
    let b = Invoice::new(build());
    assert_eq!(a.products.len(), b.products.len());
    for (x, y) in a.products.iter().zip(b.products.iter()) {
        assert_eq!(x.product, y.product);
        assert_eq!(x.product_type, y.product_type);
        assert_eq!(x.price, y.price);
    }
    assert_eq!(
        a.tips.as_ref().map(|p| p.price),
        b.tips.as_ref().map(|p| p.price)
    );
    assert_eq!(
        a.taxes.as_ref().map(|v| v.len()),
        b.taxes.as_ref().map(|v| v.len())
    );
}

#[test]
fn grand_total_is_the_sum_of_the_three_totals() {
    let products = vec![
        item("Pan", "Comida", Some(35000)),
        item("Servicio", "Propina", Some(12000)),
        item("IVA", "Impuestos", Some(5600)),
    ];
    let mut invoice = Invoice::new(products);
    invoice.calculate_taxes();
    assert_eq!(
        invoice.calculate_total(),
        invoice.total_products() + invoice.total_tips() + invoice.total_taxes()
    );
}

#[test]
fn redistribution_never_raises_a_price_above_its_original() {
    // skewed prices beside a tiny one
    let products = vec![
        item("Caro", "Comida", Some(100000)),
        item("Casi nada", "Comida", Some(1)),
        item("Nada", "Comida", None),
        item("IVA", "Impuestos", Some(10000)),
    ];
    let originals: Vec<u64> = vec![100000, 1, 0];
    let mut invoice = Invoice::new(products);
    invoice.calculate_taxes();
    for (p, orig) in invoice.products.iter().zip(originals.iter()) {
        assert!(p.price.unwrap_or(0) <= *orig);
    }
}

#[test]
fn declared_tax_is_carved_out_exactly() {
    let products = vec![
        item("Vino", "Alcohol", Some(2560000)),
        item("Sidra", "Alcohol", Some(884500)),
        item("IVA", "Impuestos", Some(157630)),
    ];
    let mut invoice = Invoice::new(products);
    let before = invoice.total_products();
    let declared = invoice.total_taxes();
    invoice.calculate_taxes();
    // conservation: the new merchandise total plus the declared tax is the
    // old merchandise total, exactly
    assert_eq!(invoice.total_products() + declared, before);
    // fidelity: the declared tax itself is untouched
    assert_eq!(invoice.total_taxes(), declared);
}

#[test]
fn derive_path_conserves_the_total_within_rounding() {
    // three one-unit prices cannot split at the statutory rate without
    // losing part of a unit each
    let products = vec![
        item("a", "x", Some(1)),
        item("b", "x", Some(1)),
        item("c", "x", Some(1)),
    ];
    let n = products.len() as u64;
    let mut invoice = Invoice::new(products);
    let before = invoice.total_products();
    invoice.calculate_taxes();
    let after = invoice.total_products() + invoice.total_taxes();
    assert!(after <= before);
    assert!(after + n + 1 > before);
}

#[test]
fn derive_path_matches_the_statutory_rate_exactly_on_round_prices() {
    let products = vec![item("Pan", "Comida", Some(35000))];
    let mut invoice = Invoice::new(products);
    invoice.calculate_taxes();
    assert_eq!(invoice.total_products(), 35000 * (VAT_DEN - VAT_NUM) / VAT_DEN);
    assert_eq!(invoice.total_taxes(), 35000 * VAT_NUM / VAT_DEN);
    assert_eq!(invoice.calculate_total(), 35000);
}

#[test]
fn declared_tax_larger_than_the_merchandise_flattens_prices_to_zero() {
    let products = vec![
        item("Pan", "Comida", Some(10000)),
        item("IVA", "Impuestos", Some(20000)),
    ];
    let mut invoice = Invoice::new(products);
    invoice.calculate_taxes();
    assert_eq!(invoice.total_products(), 0);
    assert_eq!(invoice.total_taxes(), 20000);
    assert_eq!(invoice.calculate_total(), 20000);
}

#[test]
fn declared_tax_with_no_priced_merchandise_changes_nothing() {
    let products = vec![
        item("Pan", "Comida", None),
        item("IVA", "Impuestos", Some(20000)),
    ];
    let mut invoice = Invoice::new(products);
    invoice.calculate_taxes();
    assert_eq!(invoice.products[0].price, None);
    assert_eq!(invoice.total_products(), 0);
    assert_eq!(invoice.total_taxes(), 20000);
}

#[test]
fn scenario_b_totals_are_exact_in_price_units() {
    let products = vec![
        item("Vino Rosado", "Alcohol", Some(2560000)),
        item("Vino Tinto", "Alcohol", Some(1480000)),
        item("Sidra", "Alcohol", Some(884500)),
        item("Bicarbonato", "Abarrotes", Some(240000)),
        item("Pasta", "Comida", Some(225000)),
        item("Jeringa", "Abarrotes", Some(700000)),
        item("Jabon", "Abarrotes", Some(670000)),
        item("Rummy", "Ocio", Some(1850000)),
        item("IVA", "Impuestos", Some(621000)),
        item("ISR", "Impuestos", Some(955300)),
    ];
    let mut invoice = Invoice::new(products);
    invoice.calculate_taxes();
    assert_eq!(invoice.total_products(), 7033200);
    assert_eq!(invoice.total_taxes(), 1576300);
    assert_eq!(invoice.calculate_total(), 8609500);
}

#[test]
fn gratuity_is_recognised_by_category_not_by_item_name() {
    // named like a tip but categorised as merchandise: stays merchandise
    let products = vec![item("Propina", "Comida", Some(10000))];
    let invoice = Invoice::new(products);
    assert_eq!(invoice.products.len(), 1);
    assert!(invoice.tips.is_none());

    // categorised as gratuity under any item name: folded into the tip
    let products = vec![
        item("Servicio", "Propina", Some(10000)),
        item("Extra", "Propina", Some(5000)),
    ];
    let invoice = Invoice::new(products);
    assert_eq!(invoice.products.len(), 0);
    assert_eq!(invoice.tips.unwrap().price.unwrap(), 15000);
}
