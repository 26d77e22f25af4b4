use recibo::reader::{parse_price, read_file};

#[test]
fn test_read_file() {
    let file = "2021-01-01\tCerveza\tBebida\tBar\t$2.00\n2021-01-01\tCerveza\tBebida\tBar\t$2.00\n2021-01-01\tCerveza\tBebida\tBar\t$2.00\n2021-01-01\tCerveza\tBebida\tBar\t$2.00\n2021-01-01\tCerveza\tBebida\tBar\t$2.00\n";
    let products = read_file(file);
    assert_eq!(products.len(), 5);
}

#[test]
fn test_read_file_taxes() {
    let products = "\
        viernes, 27 de diciembre de 2024	Vino Rosado	Alcohol	walmart	 $256.00 
        viernes, 27 de diciembre de 2024	Vino Tinto	Alcohol	walmart	 $148.00 
        viernes, 27 de diciembre de 2024	Sidra	Alcohol	walmart	 $88.45 
        viernes, 27 de diciembre de 2024	Bicarbonato	Abarrotes	walmart	 $24.00 
        viernes, 27 de diciembre de 2024	Pasta	Comida	walmart	 $22.50 
        viernes, 27 de diciembre de 2024	Jeringa	Abarrotes	walmart	 $70.00 
        viernes, 27 de diciembre de 2024	Jabón	Abarrotes	walmart	 $67.00 
        viernes, 27 de diciembre de 2024	Rummy	Ocio	walmart	 $185.00 
        viernes, 27 de diciembre de 2024	Impuestos	Impuestos	walmart	 $157.63 
        ";
    println!("{:?}", read_file(products));
}

#[test]
fn parse_price_reads_plain_and_formatted_amounts() {
    assert_eq!(parse_price("$2.00"), Some(20000));
    assert_eq!(parse_price(" $256.00 "), Some(2560000));
    assert_eq!(parse_price("30.00"), Some(300000));
    assert_eq!(parse_price(" 2 "), Some(20000));
    assert_eq!(parse_price("5."), Some(50000));
    assert_eq!(parse_price(".5"), Some(5000));
    assert_eq!(parse_price("0"), Some(0));
    assert_eq!(parse_price("$$2$.00"), Some(20000));
}

#[test]
fn parse_price_truncates_beyond_the_price_resolution() {
    assert_eq!(parse_price("1.2345678"), Some(12345));
    assert_eq!(parse_price("0.00009"), Some(0));
}

#[test]
fn parse_price_rejects_what_is_not_a_plain_amount() {
    assert_eq!(parse_price(""), None);
    assert_eq!(parse_price("   "), None);
    assert_eq!(parse_price("."), None);
    assert_eq!(parse_price("-3"), None);
    assert_eq!(parse_price("+3"), None);
    assert_eq!(parse_price("1e3"), None);
    assert_eq!(parse_price("abc"), None);
    assert_eq!(parse_price("1.2.3"), None);
    assert_eq!(parse_price("99999999999999999999999"), None);
}

#[test]
fn read_file_skips_short_lines_and_keeps_field_order() {
    let text = "a\tb\nd1\tn1\tt1\tp1\t$1.00\textra\nd2\tn2\tt2\tp2\tbad";
    let products = read_file(text);
    assert_eq!(products.len(), 2);
    assert_eq!(products[0].date, "d1");
    assert_eq!(products[0].product, "n1");
    assert_eq!(products[0].product_type, "t1");
    assert_eq!(products[0].place, "p1");
    assert_eq!(products[0].price, Some(10000));
    assert_eq!(products[1].price, None);
}
