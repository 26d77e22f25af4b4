use vstd::prelude::*;
use vstd::string::StringExecFns;

verus! {

/// Number of price units in one currency unit: prices are fixed-point
/// values counted in ten-thousandths of the currency unit, so that the
/// reconciliation arithmetic is exact where floating point would drift.
pub const MONEY_SCALE: u64 = 10000;

/// One line item of a receipt: descriptive fields and an optional price.
/// An absent price means "price unknown" and counts as zero in every total.
#[derive(Debug)]
pub struct Product {
    pub date: String,
    pub product: String,
    pub product_type: String,
    pub place: String,
    pub price: Option<u64>,
}

/// The mathematical value of a `Product`: its strings as character
/// sequences, its price as it stands.
pub struct ProductModel {
    pub date: Seq<char>,
    pub product: Seq<char>,
    pub product_type: Seq<char>,
    pub place: Seq<char>,
    pub price: Option<u64>,
}

impl View for Product {
    type V = ProductModel;

    open spec fn view(&self) -> ProductModel {
        ProductModel {
            date: self.date@,
            product: self.product@,
            product_type: self.product_type@,
            place: self.place@,
            price: self.price,
        }
    }
}

impl DeepView for Product {
    type V = ProductModel;

    open spec fn deep_view(&self) -> ProductModel {
        self.view()
    }
}

impl Clone for Product {
    fn clone(&self) -> (res: Self)
        ensures
            res == *self,
    {
        Product {
            date: self.date.clone(),
            product: self.product.clone(),
            product_type: self.product_type.clone(),
            place: self.place.clone(),
            price: self.price,
        }
    }
}

/// The price a record contributes to a total: its price if present, else zero.
pub open spec fn price_of(p: ProductModel) -> int {
    match p.price {
        Some(x) => x as int,
        None => 0,
    }
}

/// Sum of the prices of a sequence of records, absent prices counting as zero.
pub open spec fn sum_prices(s: Seq<ProductModel>) -> int
    decreases s.len(),
{
    if s.len() == 0 {
        0
    } else {
        sum_prices(s.drop_last()) + price_of(s.last())
    }
}

pub proof fn lemma_sum_prices_nonneg(s: Seq<ProductModel>)
    ensures
        sum_prices(s) >= 0,
    decreases s.len(),
{
    if s.len() > 0 {
        lemma_sum_prices_nonneg(s.drop_last());
    }
}

pub proof fn lemma_sum_prices_push(s: Seq<ProductModel>, p: ProductModel)
    ensures
        sum_prices(s.push(p)) == sum_prices(s) + price_of(p),
{
    assert(s.push(p).drop_last() =~= s);
    assert(s.push(p).last() == p);
}

/// The records of `s` whose category differs from `tag`, in order.
pub open spec fn drop_by_type(s: Seq<ProductModel>, tag: Seq<char>) -> Seq<ProductModel> {
    s.filter(|p: ProductModel| p.product_type != tag)
}

/// The records of `s` whose category equals `tag`, in order.
pub open spec fn select_by_type(s: Seq<ProductModel>, tag: Seq<char>) -> Seq<ProductModel> {
    s.filter(|p: ProductModel| p.product_type == tag)
}

/// Extending a sequence by one record extends exactly one side of the
/// category partition by that record.
pub proof fn lemma_partition_by_type_push(s: Seq<ProductModel>, tag: Seq<char>, x: ProductModel)
    ensures
        drop_by_type(s.push(x), tag) == if x.product_type != tag {
            drop_by_type(s, tag).push(x)
        } else {
            drop_by_type(s, tag)
        },
        select_by_type(s.push(x), tag) == if x.product_type == tag {
            select_by_type(s, tag).push(x)
        } else {
            select_by_type(s, tag)
        },
{
    reveal(Seq::filter);
    assert(s.push(x).drop_last() =~= s);
    assert(s.push(x).last() == x);
}

/// The category partition loses no record either.
pub proof fn lemma_len_split_by_type(s: Seq<ProductModel>, tag: Seq<char>)
    ensures
        s.len() == drop_by_type(s, tag).len() + select_by_type(s, tag).len(),
    decreases s.len(),
{
    reveal(Seq::filter);
    if s.len() > 0 {
        lemma_len_split_by_type(s.drop_last(), tag);
    }
}

/// The category partition carries the whole total: records matching `tag`
/// and the rest sum to the original sum.
pub proof fn lemma_sum_split_by_type(s: Seq<ProductModel>, tag: Seq<char>)
    ensures
        sum_prices(s) == sum_prices(drop_by_type(s, tag)) + sum_prices(select_by_type(s, tag)),
    decreases s.len(),
{
    reveal(Seq::filter);
    if s.len() > 0 {
        let t = s.drop_last();
        let x = s.last();
        lemma_sum_split_by_type(t, tag);
        if x.product_type == tag {
            lemma_sum_prices_push(select_by_type(t, tag), x);
        } else {
            lemma_sum_prices_push(drop_by_type(t, tag), x);
        }
    }
}

/// Removes from `products` every record whose `product_type` field equals
/// `product_type`, returning them in their original order, or `None` when
/// none matched.
#[verifier::loop_isolation(false)]
pub fn extract_by_type(products: &mut Vec<Product>, product_type: &str) -> (r: Option<
    Vec<Product>,
>)
    ensures
        final(products).deep_view() == drop_by_type(old(products).deep_view(), product_type@),
        ({
            let taken = select_by_type(old(products).deep_view(), product_type@);
            match r {
                Some(v) => v.deep_view() == taken && taken.len() > 0,
                None => taken.len() == 0,
            }
        }),
{
    let tag = String::from_str(product_type);
    let mut kept: Vec<Product> = Vec::new();
    let mut taken: Vec<Product> = Vec::new();
    let n = products.len();
    let mut i: usize = 0;
    while i < n
        invariant
            n == products.deep_view().len(),
            i <= n,
            tag@ == product_type@,
            kept.deep_view() == drop_by_type(products.deep_view().take(i as int), product_type@),
            taken.deep_view() == select_by_type(products.deep_view().take(i as int), product_type@),
        decreases n - i,
    {
        let ghost prefix = products.deep_view().take(i as int);
        let p = products[i].clone();
        proof {
            assert(products.deep_view().take(i + 1) =~= prefix.push(p.deep_view()));
            lemma_partition_by_type_push(prefix, product_type@, p.deep_view());
        }
        if p.product_type == tag {
            taken.push(p);
        } else {
            kept.push(p);
        }
        proof {
            assert(kept.deep_view() =~= drop_by_type(products.deep_view().take(i + 1), product_type@));
            assert(taken.deep_view() =~= select_by_type(products.deep_view().take(i + 1), product_type@));
        }
        i = i + 1;
    }
    proof {
        assert(products.deep_view().take(n as int) =~= products.deep_view());
    }
    *products = kept;
    if taken.len() == 0 {
        None
    } else {
        Some(taken)
    }
}

/// Sum of the prices of the given records, an absent price counting as zero.
#[verifier::loop_isolation(false)]
pub fn calculate_total_from_products(products: &Vec<Product>) -> (t: u64)
    requires
        sum_prices(products.deep_view()) <= u64::MAX,
    ensures
        t == sum_prices(products.deep_view()),
{
    let mut total: u64 = 0;
    let n = products.len();
    let mut i: usize = 0;
    while i < n
        invariant
            n == products.deep_view().len(),
            i <= n,
            total == sum_prices(products.deep_view().take(i as int)),
            sum_prices(products.deep_view()) <= u64::MAX,
        decreases n - i,
    {
        let ghost prefix = products.deep_view().take(i as int);
        proof {
            assert(products.deep_view().take(i + 1) =~= prefix.push(products.deep_view()[i as int]));
            lemma_sum_prices_push(prefix, products.deep_view()[i as int]);
            lemma_sum_prices_prefix_bound(products.deep_view(), i + 1);
            lemma_sum_prices_nonneg(prefix);
        }
        let p = match products[i].price {
            Some(x) => x,
            None => 0,
        };
        total = total + p;
        i = i + 1;
    }
    proof {
        assert(products.deep_view().take(n as int) =~= products.deep_view());
    }
    total
}

/// A prefix of a sequence never carries more total price than the whole.
pub proof fn lemma_sum_prices_prefix_bound(s: Seq<ProductModel>, i: int)
    requires
        0 <= i <= s.len(),
    ensures
        sum_prices(s.take(i)) <= sum_prices(s),
    decreases s.len() - i,
{
    if i < s.len() {
        lemma_sum_prices_push(s.take(i), s[i]);
        assert(s.take(i + 1) =~= s.take(i).push(s[i]));
        lemma_sum_prices_prefix_bound(s, i + 1);
    } else {
        assert(s.take(i) =~= s);
    }
}

pub open spec fn spec_pow10(k: int) -> int
    decreases k,
{
    if k <= 0 {
        1
    } else {
        10 * spec_pow10(k - 1)
    }
}

/// The character that writes one decimal digit.
pub open spec fn digit_char(d: int) -> char {
    if d == 0 {
        '0'
    } else if d == 1 {
        '1'
    } else if d == 2 {
        '2'
    } else if d == 3 {
        '3'
    } else if d == 4 {
        '4'
    } else if d == 5 {
        '5'
    } else if d == 6 {
        '6'
    } else if d == 7 {
        '7'
    } else if d == 8 {
        '8'
    } else {
        '9'
    }
}

/// The decimal digits of a non-negative number, most significant first.
pub open spec fn dec_chars(n: int) -> Seq<char>
    decreases n,
{
    if n < 10 {
        seq![digit_char(n)]
    } else {
        dec_chars(n / 10) + seq![digit_char(n % 10)]
    }
}

/// A price written with two decimals, rounded to the nearest cent, halves
/// upward: whole cents, a point, and exactly two fraction digits.
pub open spec fn money_chars(units: u64) -> Seq<char> {
    let cents = (units + 50) / 100;
    dec_chars(cents / 100) + seq!['.', digit_char((cents % 100) / 10), digit_char(cents % 10 % 10)]
}

/// Appends one decimal digit to a string.
fn push_digit(s: &mut String, d: u64)
    requires
        d < 10,
    ensures
        final(s)@ == old(s)@ + seq![digit_char(d as int)],
{
    proof {
        reveal_strlit("0");
        reveal_strlit("1");
        reveal_strlit("2");
        reveal_strlit("3");
        reveal_strlit("4");
        reveal_strlit("5");
        reveal_strlit("6");
        reveal_strlit("7");
        reveal_strlit("8");
        reveal_strlit("9");
    }
    if d == 0 {
        s.append("0");
    } else if d == 1 {
        s.append("1");
    } else if d == 2 {
        s.append("2");
    } else if d == 3 {
        s.append("3");
    } else if d == 4 {
        s.append("4");
    } else if d == 5 {
        s.append("5");
    } else if d == 6 {
        s.append("6");
    } else if d == 7 {
        s.append("7");
    } else if d == 8 {
        s.append("8");
    } else {
        s.append("9");
    }
    proof {
        assert(final(s)@ =~= old(s)@ + seq![digit_char(d as int)]);
    }
}

/// Writes a number in decimal.
fn u64_to_string(n: u64) -> (s: String)
    ensures
        s@ == dec_chars(n as int),
    decreases n,
{
    if n < 10 {
        let mut s = String::new();
        push_digit(&mut s, n);
        proof {
            assert(s@ =~= dec_chars(n as int));
        }
        s
    } else {
        let mut s = u64_to_string(n / 10);
        push_digit(&mut s, n % 10);
        proof {
            assert(s@ =~= dec_chars(n as int));
        }
        s
    }
}

/// Writes a price in currency units with two decimals, as `money_chars`
/// describes.
pub fn money_string(units: u64) -> (s: String)
    ensures
        s@ == money_chars(units),
{
    let cents = ((units as u128 + 50) / 100) as u64;
    let mut s = u64_to_string(cents / 100);
    proof {
        reveal_strlit(".");
    }
    s.append(".");
    push_digit(&mut s, (cents % 100) / 10);
    push_digit(&mut s, cents % 10 % 10);
    proof {
        assert(s@ =~= money_chars(units));
    }
    s
}

/// What one record's plain display line reads: its price alone.
pub open spec fn show_chars(p: ProductModel) -> Seq<char> {
    money_chars(match p.price {
        Some(x) => x,
        None => 0,
    })
}

/// What one record's full display line reads: every field, the free-text
/// ones in plain quotes, then the price.
pub open spec fn show_all_chars(p: ProductModel) -> Seq<char> {
    p.date + " \""@ + p.product + "\" "@ + p.product_type + " \""@ + p.place + "\" "@
        + show_chars(p)
}

impl Product {
    /// The record's plain display line: its price with two decimals.
    pub fn show(&self) -> (r: String)
        ensures
            r@ == show_chars(self@),
    {
        match self.price {
            Some(x) => money_string(x),
            None => money_string(0),
        }
    }

    /// The record's full display line: every field, then the price.
    pub fn show_all(&self) -> (r: String)
        ensures
            r@ == show_all_chars(self@),
    {
        proof {
            reveal_strlit(" \"");
            reveal_strlit("\" ");
        }
        let mut s = String::new();
        s.append(self.date.as_str());
        s.append(" \"");
        s.append(self.product.as_str());
        s.append("\" ");
        s.append(self.product_type.as_str());
        s.append(" \"");
        s.append(self.place.as_str());
        s.append("\" ");
        let money = self.show();
        s.append(money.as_str());
        proof {
            assert(s@ =~= show_all_chars(self@));
        }
        s
    }
}

} // verus!

