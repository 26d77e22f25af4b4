use recibo::invoice::{Invoice, VAT_DEN, VAT_NUM};
use recibo::product::{Product, MONEY_SCALE};
use recibo::reader::read_file;

fn beer() -> Product {
    Product {
        date: "2021-01-01".to_owned(),
        product: "Cerveza".to_owned(),
        product_type: "Bebida".to_owned(),
        place: "Bar".to_owned(),
        price: Some(2 * MONEY_SCALE),
    }
}

#[test]
fn test_new_invoice() {
    let products = vec![
        beer(),
        beer(),
        beer(),
        Product {
            date: "2021-01-01".to_owned(),
            product: "Propina".to_owned(),
            product_type: "Propina".to_owned(),
            place: "Bar".to_owned(),
            price: Some(2 * MONEY_SCALE),
        },
        Product {
            date: "2021-01-01".to_owned(),
            product: "IVA".to_owned(),
            product_type: "Impuestos".to_owned(),
            place: "Bar".to_owned(),
            price: Some(2 * MONEY_SCALE),
        },
    ];
    let invoice = Invoice::new(products);
    assert_eq!(invoice.products.len(), 3);
    assert_eq!(invoice.tips.unwrap().price.unwrap(), 2 * MONEY_SCALE);
    assert_eq!(invoice.taxes.unwrap().len(), 1);
}

#[test]
fn test_calculate_taxes_from_restaurant() {
    let products = vec![
        beer(),
        beer(),
        beer(),
        Product {
            date: "2021-01-01".to_owned(),
            product: "Propina".to_owned(),
            product_type: "Propina".to_owned(),
            place: "Bar".to_owned(),
            price: Some(2 * MONEY_SCALE),
        },
    ];
    let mut invoice = Invoice::new(products);
    invoice.calculate_taxes();
    let total = invoice.calculate_total();
    let total_products = invoice.total_products();
    let total_tips = invoice.total_tips();
    let total_taxes = invoice.total_taxes();
    assert_eq!(total, 8 * MONEY_SCALE);
    assert_eq!(total_products, 6 * MONEY_SCALE * (VAT_DEN - VAT_NUM) / VAT_DEN);
    assert_eq!(total_tips, 2 * MONEY_SCALE);
    assert_eq!(total_taxes, 6 * MONEY_SCALE * VAT_NUM / VAT_DEN);
}

#[test]
fn test_taxes_calculation_from_bill() {
    let raw_invoice = "
        viernes, 27 de diciembre de 2024	Vino Rosado	Alcohol	walmart	 $256.00 
        viernes, 27 de diciembre de 2024	Vino Tinto	Alcohol	walmart	 $148.00 
        viernes, 27 de diciembre de 2024	Sidra	Alcohol	walmart	 $88.45 
        viernes, 27 de diciembre de 2024	Bicarbonato	Abarrotes	walmart	 $24.00 
        viernes, 27 de diciembre de 2024	Pasta	Comida	walmart	 $22.50 
        viernes, 27 de diciembre de 2024	Jeringa	Abarrotes	walmart	 $70.00 
        viernes, 27 de diciembre de 2024	Jab√≥n	Abarrotes	walmart	 $67.00 
        viernes, 27 de diciembre de 2024	Rummy	Ocio	walmart	 $185.00 
        viernes, 27 de diciembre de 2024	IVA	Impuestos	walmart	 $62.10
        viernes, 27 de diciembre de 2024	ISR	Impuestos	walmart	 $95.53 
        ";
    let products = read_file(raw_invoice);
    let mut invoice = Invoice::new(products);
    invoice.calculate_taxes();
    let total = invoice.calculate_total();
    let total_products = invoice.total_products();
    let total_tips = invoice.total_tips();
    let total_taxes = invoice.total_taxes();
    assert!((total as f64 / MONEY_SCALE as f64 - 860.95).abs() < 0.001);
    assert!((total_products as f64 / MONEY_SCALE as f64 - 703.32).abs() < 0.001);
    assert_eq!(total_tips, 0);
    assert!((total_taxes as f64 / MONEY_SCALE as f64 - 157.63).abs() < 0.001);
}

#[test]
fn test_taxes_calculation_from_bill_no_taxes() {
    let raw_invoice = "
        viernes, 27 de diciembre de 2024	Vino Rosado	Alcohol	walmart	 $256.00 
        viernes, 27 de diciembre de 2024	Vino Tinto	Alcohol	walmart	 $148.00

        ";
    let products = read_file(raw_invoice);
    let mut invoice = Invoice::new(products);
    invoice.calculate_taxes();
    let total = invoice.calculate_total();
    assert_eq!(total, 404 * MONEY_SCALE);
    let total_products = invoice.total_products();
    let total_tips = invoice.total_tips();
    let total_taxes = invoice.total_taxes();
    assert_eq!(total_products, 404 * MONEY_SCALE * (VAT_DEN - VAT_NUM) / VAT_DEN);
    assert_eq!(total_tips, 0);
    assert_eq!(total_taxes, 404 * MONEY_SCALE * VAT_NUM / VAT_DEN);
}

#[test]
fn test_taxes_calculation_from_restaurant_with_taxes() {
    let raw_invoice = "
        viernes, 27 de diciembre de 2024	Vino Rosado	Alcohol	Restaurant	 $256.00 
        viernes, 27 de diciembre de 2024	Vino Tinto	Alcohol	Restaurant	 $148.00
        viernes, 27 de diciembre de 2024	Propina	Alcohol	Restaurant	 30.00
        viernes, 27 de diciembre de 2024	IVA	Impuestos	walmart	 $20.10
        viernes, 27 de diciembre de 2024	ISR	Impuestos	walmart	 $10.53
        ";
    let products = read_file(raw_invoice);
    let mut invoice = Invoice::new(products);
    invoice.calculate_taxes();
    let total = invoice.calculate_total();
    assert!((total as f64 / MONEY_SCALE as f64 - 434.0).abs() < 0.001);
    let total_products = invoice.total_products();
    let total_tips = invoice.total_tips();
    let total_taxes = invoice.total_taxes();
    // the tip line carries the category "Alcohol", so it is merchandise:
    // gratuity is recognised by category, and this receipt declares none
    assert_eq!(total_products, 4033700);
    assert_eq!(total_tips, 0);
    assert!((total_taxes as f64 / MONEY_SCALE as f64 - 30.63).abs() < 0.001);
}
