use recibo::invoice::{find_largest_string, Invoice};
use recibo::product::{Product, MONEY_SCALE};

fn item(name: &str, kind: &str, price: Option<u64>) -> Product {
    Product {
        date: "2021-01-01".to_owned(),
        product: name.to_owned(),
        product_type: kind.to_owned(),
        place: "Bar".to_owned(),
        price,
    }
}

#[test]
fn find_largest_string_adds_the_margin() {
    let a = "abc".to_owned();
    let b = "abcdef".to_owned();
    let c = String::new();
    let strings: Vec<&String> = vec![&a, &b, &c];
    assert_eq!(find_largest_string(&strings), 10);
}

#[test]
fn show_invoice_lists_each_group_in_order() {
    let products = vec![
        item("Pan", "Comida", Some(35000)),
        item("Servicio", "Propina", Some(12000)),
        item("IVA", "Impuestos", Some(5600)),
    ];
    let invoice = Invoice::new(products);
    let brief = invoice.show_invoice(false);
    assert_eq!(brief.len(), 3);
    assert_eq!(brief[0], "3.50");
    assert_eq!(brief[1], "1.20");
    assert_eq!(brief[2], "2021-01-01 \"IVA\" Impuestos \"Bar\" 0.56");
    let full = invoice.show_invoice(true);
    assert_eq!(full.len(), 3);
    assert_eq!(full[0], "2021-01-01 \"Pan\" Comida \"Bar\" 3.50");
    assert_eq!(full[1], "2021-01-01 \"Servicio\" Propina \"Bar\" 1.20");
}

#[test]
fn print_resume_draws_the_summary_box() {
    let products = vec![
        item("Pan", "Comida", Some(3 * MONEY_SCALE)),
        item("Servicio", "Propina", Some(2 * MONEY_SCALE)),
        item("IVA", "Impuestos", Some(MONEY_SCALE)),
    ];
    let mut invoice = Invoice::new(products);
    invoice.calculate_taxes();
    let lines = invoice.print_resume();
    assert_eq!(lines.len(), 7);
    assert_eq!(lines[0], "=".repeat(36));
    assert!(lines[1].starts_with('|') && lines[1].ends_with('|'));
    assert!(lines[1].contains("Products: $2.00"));
    assert!(lines[2].contains("Tips: $2.00"));
    assert!(lines[3].contains("Taxes: $1.00"));
    assert_eq!(lines[4], "-".repeat(36));
    assert!(lines[5].contains("Total: $5.00"));
    assert_eq!(lines[6], "=".repeat(36));
    for line in &lines[1..4] {
        assert_eq!(line.len(), 36);
    }
}

#[test]
fn print_resume_leaves_the_gratuity_line_out_when_there_is_none() {
    let products = vec![item("Pan", "Comida", Some(3 * MONEY_SCALE))];
    let mut invoice = Invoice::new(products);
    invoice.calculate_taxes();
    let lines = invoice.print_resume();
    assert_eq!(lines.len(), 6);
    assert!(lines[1].contains("Products: $"));
    assert!(lines[2].contains("Taxes: $"));
    assert!(!lines.iter().any(|l| l.contains("Tips")));
}
