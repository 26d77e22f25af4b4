use vstd::prelude::*;

use crate::product::{
    calculate_total_from_products, dec_chars, drop_by_type, extract_by_type,
    lemma_sum_prices_nonneg, lemma_sum_split_by_type, money_chars, money_string, price_of,
    select_by_type, show_all_chars, show_chars, sum_prices, Product, ProductModel,
};
use vstd::string::StringExecFns;

verus! {

/// Statutory tax rate applied when no tax is declared: VAT_NUM / VAT_DEN.
pub const VAT_NUM: u64 = 16;

pub const VAT_DEN: u64 = 100;

/// Category that marks a record as gratuity.
pub open spec fn spec_gratuity_tag() -> Seq<char> {
    "Propina"@
}

/// Category that marks a record as declared tax.
pub open spec fn spec_tax_tag() -> Seq<char> {
    "Impuestos"@
}

/// The merchandise group: records that are neither gratuity nor declared tax.
pub open spec fn classified_merch(s: Seq<ProductModel>) -> Seq<ProductModel> {
    drop_by_type(drop_by_type(s, spec_gratuity_tag()), spec_tax_tag())
}

/// The declared-tax group: non-gratuity records carrying the tax category.
pub open spec fn classified_taxes(s: Seq<ProductModel>) -> Seq<ProductModel> {
    select_by_type(drop_by_type(s, spec_gratuity_tag()), spec_tax_tag())
}

/// The gratuity records, before they are folded into one.
pub open spec fn classified_gratuity(s: Seq<ProductModel>) -> Seq<ProductModel> {
    select_by_type(s, spec_gratuity_tag())
}

/// All gratuity records fold into a single one: the descriptive fields of the
/// first matched record, and the sum of all matched prices.
pub open spec fn folded_gratuity(s: Seq<ProductModel>) -> Option<ProductModel> {
    let g = classified_gratuity(s);
    if g.len() == 0 {
        None
    } else {
        Some(
            ProductModel {
                date: g[0].date,
                product: g[0].product,
                product_type: g[0].product_type,
                place: g[0].place,
                price: Some(sum_prices(g) as u64),
            },
        )
    }
}

/// A record with its price replaced by `q`, which must fit in the price type.
pub open spec fn with_price(p: ProductModel, q: int) -> ProductModel {
    ProductModel {
        date: p.date,
        product: p.product,
        product_type: p.product_type,
        place: p.place,
        price: Some(q as u64),
    }
}

/// The first reconciliation pass over one record: the price scaled by
/// (t - d) / t, rounded down to a whole price unit.
pub open spec fn scale_one(p: ProductModel, t: int, d: int) -> ProductModel {
    with_price(p, price_of(p) * (t - d) / t)
}

/// The first reconciliation pass over the merchandise group.
pub open spec fn scale_merch(m: Seq<ProductModel>, t: int, d: int) -> Seq<ProductModel> {
    Seq::new(m.len(), |i: int| scale_one(m[i], t, d))
}

/// Every price set to zero: declared tax at least as large as the
/// merchandise total swallows every price entirely.
pub open spec fn zeroed(m: Seq<ProductModel>) -> Seq<ProductModel> {
    Seq::new(m.len(), |i: int| with_price(m[i], 0))
}

/// Whether a scaled record may receive a share of the leftover tax: giving
/// it the candidate increment `c` must not push it above its original price.
pub open spec fn is_included(orig: ProductModel, scaled: ProductModel, c: int) -> bool {
    price_of(scaled) + c <= price_of(orig)
}

/// How many records with index below `i` are eligible for an increment.
pub open spec fn included_below(
    m: Seq<ProductModel>,
    m1: Seq<ProductModel>,
    c: int,
    i: int,
) -> int
    decreases i,
{
    if i <= 0 {
        0
    } else {
        included_below(m, m1, c, i - 1) + if is_included(m[i - 1], m1[i - 1], c) {
            1int
        } else {
            0int
        }
    }
}

pub open spec fn div_ceil(a: int, b: int) -> int {
    (a + b - 1) / b
}

/// Redistribution of a declared tax total `d` over the merchandise group
/// `m`: each price is scaled down by the shared ratio, and the part of
/// `sum(m) - d` that whole-unit rounding left unassigned is then handed
/// back one unit at a time to the eligible records, earliest first. A
/// record whose scaled price already reaches its original price is not
/// eligible. A merchandise total of zero cannot give a ratio: the group is
/// left untouched. A declared tax at or above the merchandise total
/// flattens every price to zero.
pub open spec fn redistributed(m: Seq<ProductModel>, d: int) -> Seq<ProductModel> {
    let t = sum_prices(m);
    if t == 0 {
        m
    } else if d >= t {
        zeroed(m)
    } else {
        let m1 = scale_merch(m, t, d);
        let r = t - d - sum_prices(m1);
        let c = div_ceil(r, m.len() as int);
        Seq::new(
            m.len(),
            |i: int|
                if is_included(m[i], m1[i], c) && included_below(m, m1, c, i) < r {
                    with_price(m1[i], price_of(m1[i]) + 1)
                } else {
                    m1[i]
                },
        )
    }
}

/// One record with the statutory rate carved out of its price.
pub open spec fn devat_one(p: ProductModel) -> ProductModel {
    with_price(p, price_of(p) * ((VAT_DEN - VAT_NUM) as int) / (VAT_DEN as int))
}

/// The merchandise group with the statutory rate carved out of each price.
pub open spec fn devatted(m: Seq<ProductModel>) -> Seq<ProductModel> {
    Seq::new(m.len(), |i: int| devat_one(m[i]))
}

/// The tax derived from a merchandise total at the statutory rate.
pub open spec fn derived_tax_of(t: int) -> int {
    t * (VAT_NUM as int) / (VAT_DEN as int)
}

/// How many records carry a positive price.
pub open spec fn count_pos(m: Seq<ProductModel>) -> int
    decreases m.len(),
{
    if m.len() == 0 {
        0
    } else {
        count_pos(m.drop_last()) + if price_of(m.last()) > 0 {
            1int
        } else {
            0int
        }
    }
}

/// Facts about the scaled quotient `q * (t - d) / t` of one price `q`.
proof fn lemma_scale_quotient(q: int, t: int, d: int)
    requires
        0 <= q,
        0 < t,
        0 <= d <= t,
    ensures
        0 <= q * (t - d) / t <= q,
        t * (q * (t - d) / t) <= q * (t - d),
        q > 0 ==> t * (q * (t - d) / t) >= q * (t - d) - t + 1,
        q == 0 ==> t * (q * (t - d) / t) == q * (t - d),
        d == 0 ==> q * (t - d) / t == q,
        d >= 1 && q >= 1 ==> q * (t - d) / t <= q - 1,
{
    let x = q * (t - d);
    assert(0 <= x <= q * t) by (nonlinear_arith)
        requires
            0 <= q,
            0 <= d <= t,
            x == q * (t - d),
    ;
    vstd::arithmetic::div_mod::lemma_fundamental_div_mod(x, t);
    vstd::arithmetic::div_mod::lemma_mod_bound(x, t);
    if q == 0 {
        assert(x == 0);
        vstd::arithmetic::div_mod::lemma_mod_bound(0, t);
        assert(x % t == 0);
    }
    assert(x / t >= 0) by (nonlinear_arith)
        requires
            x >= 0,
            t > 0,
            x == t * (x / t) + (x % t),
            0 <= x % t < t,
    ;
    assert(x / t <= q) by (nonlinear_arith)
        requires
            x <= q * t,
            t > 0,
            x == t * (x / t) + (x % t),
            0 <= x % t < t,
    ;
    if d == 0 {
        assert(x == q * t) by (nonlinear_arith)
            requires
                x == q * (t - d),
                d == 0,
        ;
        vstd::arithmetic::div_mod::lemma_div_multiples_vanish(q, t);
        assert(x == t * q) by (nonlinear_arith)
            requires
                x == q * t,
        ;
        assert(x / t == q);
    }
    if d >= 1 && q >= 1 {
        assert(x <= q * t - q) by (nonlinear_arith)
            requires
                d >= 1,
                q >= 1,
                x == q * (t - d),
        ;
        assert(q * t - q <= t * (q - 1) + (t - 1)) by (nonlinear_arith)
            requires
                q >= 1,
                t > 0,
        ;
        assert(x / t <= q - 1) by (nonlinear_arith)
            requires
                x <= q * t - q,
                q >= 1,
                t > 0,
                x == t * (x / t) + (x % t),
                0 <= x % t < t,
        ;
    }
}

/// The scaled group's total, multiplied through by `t`, sits within
/// `t * count_pos(m)` below `(t - d) * sum_prices(m)`; with no tax to carve
/// out the total is unchanged.
proof fn lemma_scale_sum(m: Seq<ProductModel>, t: int, d: int)
    requires
        0 < t,
        0 <= d <= t,
    ensures
        sum_prices(scale_merch(m, t, d)) >= 0,
        t * sum_prices(scale_merch(m, t, d)) <= (t - d) * sum_prices(m),
        t * sum_prices(scale_merch(m, t, d)) >= (t - d) * sum_prices(m) - t * count_pos(m),
        d == 0 ==> sum_prices(scale_merch(m, t, d)) == sum_prices(m),
    decreases m.len(),
{
    let s1 = scale_merch(m, t, d);
    if m.len() == 0 {
        assert(s1 =~= Seq::<ProductModel>::empty());
    } else {
        let prev = m.drop_last();
        let q = price_of(m.last());
        lemma_scale_sum(prev, t, d);
        lemma_scale_quotient(q, t, d);
        let v = q * (t - d) / t;
        assert(scale_merch(prev, t, d) =~= s1.drop_last());
        assert(price_of(s1.last()) == v);
        let sp = sum_prices(scale_merch(prev, t, d));
        assert(sum_prices(s1) == sp + v);
        assert(t * (sp + v) == t * sp + t * v) by (nonlinear_arith);
        assert((t - d) * (sum_prices(prev) + q) == (t - d) * sum_prices(prev) + (t - d) * q)
            by (nonlinear_arith);
        assert(t * v <= q * (t - d));
        assert(q * (t - d) == (t - d) * q) by (nonlinear_arith);
        if q > 0 {
            assert(count_pos(m) == count_pos(prev) + 1);
            assert(t * v >= (t - d) * q - t + 1);
        } else {
            assert(count_pos(m) == count_pos(prev));
            assert(t * v == (t - d) * q);
        }
        assert(t * count_pos(m) == t * count_pos(prev) + if q > 0 {
            t
        } else {
            0int
        }) by (nonlinear_arith)
            requires
                count_pos(m) == count_pos(prev) + if q > 0 {
                    1int
                } else {
                    0int
                },
        ;
        if d == 0 {
            assert(v == q);
        }
    }
}

proof fn lemma_count_pos_bounds(m: Seq<ProductModel>)
    ensures
        0 <= count_pos(m) <= m.len(),
        sum_prices(m) > 0 ==> count_pos(m) >= 1,
        sum_prices(m) >= 0,
    decreases m.len(),
{
    if m.len() > 0 {
        lemma_count_pos_bounds(m.drop_last());
    }
}

proof fn lemma_zeroed_sum(m: Seq<ProductModel>)
    ensures
        sum_prices(zeroed(m)) == 0,
    decreases m.len(),
{
    if m.len() > 0 {
        assert(zeroed(m.drop_last()) =~= zeroed(m).drop_last());
        lemma_zeroed_sum(m.drop_last());
    }
}

proof fn lemma_included_below_bounds(m: Seq<ProductModel>, m1: Seq<ProductModel>, c: int, i: int)
    requires
        i >= 0,
    ensures
        0 <= included_below(m, m1, c, i) <= i,
    decreases i,
{
    if i > 0 {
        lemma_included_below_bounds(m, m1, c, i - 1);
    }
}

/// Under the eligibility rule with candidate increment `c >= 1`, handing one
/// extra unit to each of the first `r` eligible records raises the total by
/// exactly the smaller of `r` and the number of eligible records.
proof fn lemma_bumped_sum_prefix(
    m: Seq<ProductModel>,
    m1: Seq<ProductModel>,
    c: int,
    r: int,
    i: int,
)
    requires
        m1.len() == m.len(),
        r >= 0,
        c >= 1,
        0 <= i <= m.len(),
    ensures
        ({
            let res = Seq::new(
                m.len(),
                |j: int|
                    if is_included(m[j], m1[j], c) && included_below(m, m1, c, j) < r {
                        with_price(m1[j], price_of(m1[j]) + 1)
                    } else {
                        m1[j]
                    },
            );
            sum_prices(res.take(i)) == sum_prices(m1.take(i)) + if included_below(m, m1, c, i)
                <= r {
                included_below(m, m1, c, i)
            } else {
                r
            }
        }),
    decreases i,
{
    let res = Seq::new(
        m.len(),
        |j: int|
            if is_included(m[j], m1[j], c) && included_below(m, m1, c, j) < r {
                with_price(m1[j], price_of(m1[j]) + 1)
            } else {
                m1[j]
            },
    );
    if i == 0 {
        assert(res.take(0) =~= Seq::<ProductModel>::empty());
        assert(m1.take(0) =~= Seq::<ProductModel>::empty());
    } else {
        lemma_bumped_sum_prefix(m, m1, c, r, i - 1);
        lemma_included_below_bounds(m, m1, c, i - 1);
        assert(res.take(i).drop_last() =~= res.take(i - 1));
        assert(m1.take(i).drop_last() =~= m1.take(i - 1));
        assert(res.take(i).last() == res[i - 1]);
        assert(m1.take(i).last() == m1[i - 1]);
        if is_included(m[i - 1], m1[i - 1], c) && included_below(m, m1, c, i - 1) < r {
            // the record has headroom of at least one whole unit, so the
            // increased price still fits in the price type
            assert(price_of(m1[i - 1]) + 1 <= price_of(m[i - 1]));
            assert(price_of(res[i - 1]) == price_of(m1[i - 1]) + 1);
        } else {
            assert(price_of(res[i - 1]) == price_of(m1[i - 1]));
        }
    }
}

/// When eligibility coincides with carrying a positive price, the number of
/// eligible records is the number of positive prices.
proof fn lemma_included_eq_count_pos(m: Seq<ProductModel>, m1: Seq<ProductModel>, c: int, i: int)
    requires
        0 <= i <= m.len(),
        m1.len() == m.len(),
        forall|j: int|
            0 <= j < m.len() ==> (is_included(m[j], m1[j], c) <==> price_of(m[j]) > 0),
    ensures
        included_below(m, m1, c, i) == count_pos(m.take(i)),
    decreases i,
{
    if i > 0 {
        assert(m.take(i).drop_last() =~= m.take(i - 1));
        assert(m.take(i).last() == m[i - 1]);
        lemma_included_eq_count_pos(m, m1, c, i - 1);
    } else {
        assert(m.take(0) =~= Seq::<ProductModel>::empty());
    }
}

/// No overshoot: however the declared tax is redistributed, no record's
/// adjusted price exceeds the price it had before the adjustment.
pub proof fn lemma_redistribute_no_overshoot(m: Seq<ProductModel>, d: int)
    requires
        d >= 0,
    ensures
        redistributed(m, d).len() == m.len(),
        forall|i: int|
            0 <= i < m.len() ==> price_of(#[trigger] redistributed(m, d)[i]) <= price_of(m[i]),
{
    let t = sum_prices(m);
    let res = redistributed(m, d);
    if t == 0 {
    } else if d >= t {
    } else {
        let m1 = scale_merch(m, t, d);
        let r = t - d - sum_prices(m1);
        let n = m.len() as int;
        let c = div_ceil(r, n);
        assert forall|i: int| 0 <= i < m.len() implies price_of(#[trigger] res[i]) <= price_of(
            m[i],
        ) by {
            let q = price_of(m[i]);
            lemma_scale_quotient(q, t, d);
            let v = q * (t - d) / t;
            assert(price_of(m1[i]) == v);
            if is_included(m[i], m1[i], c) && included_below(m, m1, c, i) < r {
                lemma_included_below_bounds(m, m1, c, i);
                assert(r >= 1);
                vstd::arithmetic::div_mod::lemma_div_is_ordered(n, r + n - 1, n);
                vstd::arithmetic::div_mod::lemma_div_by_self(n);
                assert(c >= 1);
                assert(v + 1 <= v + c <= q);
                assert(price_of(res[i]) == v + 1);
            } else {
                assert(price_of(res[i]) == v);
            }
        }
    }
}

/// Conservation under redistribution: when a declared tax no larger than
/// the merchandise total is carved out, the adjusted merchandise total is
/// exactly the original total minus the declared tax.
pub proof fn lemma_redistribute_conservation(m: Seq<ProductModel>, d: int)
    requires
        0 <= d <= sum_prices(m),
    ensures
        sum_prices(redistributed(m, d)) == sum_prices(m) - d,
{
    let t = sum_prices(m);
    let res = redistributed(m, d);
    if t == 0 {
        assert(d == 0);
    } else if d >= t {
        lemma_zeroed_sum(m);
    } else {
        let m1 = scale_merch(m, t, d);
        let s1 = sum_prices(m1);
        let r = t - d - s1;
        let n = m.len() as int;
        let c = div_ceil(r, n);
        lemma_scale_sum(m, t, d);
        lemma_count_pos_bounds(m);
        let cp = count_pos(m);
        assert(s1 <= t - d) by (nonlinear_arith)
            requires
                t * s1 <= (t - d) * t,
                t > 0,
        ;
        assert(r <= cp) by (nonlinear_arith)
            requires
                t * s1 >= (t - d) * t - t * cp,
                t > 0,
                r == t - d - s1,
        ;
        assert(n >= 1) by {
            if m.len() == 0 {
                assert(t == 0);
            }
        }
        if r == 0 {
            assert forall|i: int| 0 <= i < n implies res[i] == m1[i] by {
                lemma_included_below_bounds(m, m1, c, i);
            }
            assert(res =~= m1);
        } else {
            // a positive leftover means tax was in fact declared
            if d == 0 {
                assert(s1 == t);
                assert(false);
            }
            // the candidate increment rounds up to exactly one unit
            assert(1 <= r <= n);
            vstd::arithmetic::div_mod::lemma_fundamental_div_mod_converse_div(r + n - 1, n, 1, r - 1);
            assert(c == 1);
            assert forall|j: int| 0 <= j < m.len() implies (is_included(m[j], m1[j], c)
                <==> price_of(#[trigger] m[j]) > 0) by {
                let q = price_of(m[j]);
                lemma_scale_quotient(q, t, d);
                assert(price_of(m1[j]) == q * (t - d) / t);
            }
            lemma_included_eq_count_pos(m, m1, c, n);
            assert(m.take(n) =~= m);
            lemma_bumped_sum_prefix(m, m1, c, r, n);
            assert(res.take(n) =~= res);
            assert(m1.take(n) =~= m1);
            assert(included_below(m, m1, c, n) == cp >= r);
            assert(sum_prices(res) == s1 + r);
        }
    }
}

/// Redistribution never grows the merchandise total, whatever the declared
/// tax was, and never drives it negative.
pub proof fn lemma_redistribute_sum_le(m: Seq<ProductModel>, d: int)
    requires
        d >= 0,
    ensures
        0 <= sum_prices(redistributed(m, d)) <= sum_prices(m),
{
    let t = sum_prices(m);
    lemma_sum_prices_nonneg(m);
    if t == 0 {
    } else if d >= t {
        lemma_zeroed_sum(m);
    } else {
        lemma_redistribute_conservation(m, d);
    }
}

/// Facts about one record's price after the statutory rate is carved out.
proof fn lemma_devat_one(p: ProductModel)
    ensures
        0 <= price_of(devat_one(p)) <= price_of(p),
        100 * price_of(devat_one(p)) <= 84 * price_of(p),
        100 * price_of(devat_one(p)) >= 84 * price_of(p) - 99,
{
    let q = price_of(p);
    let x = q * 84;
    assert(x == q * ((VAT_DEN - VAT_NUM) as int));
    vstd::arithmetic::div_mod::lemma_fundamental_div_mod(x, 100);
    vstd::arithmetic::div_mod::lemma_mod_bound(x, 100);
    assert(x >= 0) by (nonlinear_arith)
        requires
            q >= 0,
            x == q * 84,
    ;
    assert(0 <= x / 100) by (nonlinear_arith)
        requires
            x >= 0,
            x == 100 * (x / 100) + (x % 100),
            0 <= x % 100 < 100,
    ;
    assert(x / 100 <= q) by (nonlinear_arith)
        requires
            x == q * 84,
            q >= 0,
            x == 100 * (x / 100) + (x % 100),
            0 <= x % 100 < 100,
    ;
    assert(price_of(devat_one(p)) == x / 100);
}

/// The devatted group's total, scaled through by 100, sits within `99 * len`
/// below 84 times the original total.
proof fn lemma_devat_sum(m: Seq<ProductModel>)
    ensures
        0 <= sum_prices(devatted(m)),
        100 * sum_prices(devatted(m)) <= 84 * sum_prices(m),
        100 * sum_prices(devatted(m)) >= 84 * sum_prices(m) - 99 * m.len(),
    decreases m.len(),
{
    let s1 = devatted(m);
    if m.len() == 0 {
        assert(s1 =~= Seq::<ProductModel>::empty());
    } else {
        let prev = m.drop_last();
        lemma_devat_sum(prev);
        lemma_devat_one(m.last());
        assert(devatted(prev) =~= s1.drop_last());
        assert(s1.last() == devat_one(m.last()));
    }
}

/// Conservation on the derive path: the devatted merchandise total plus the
/// derived tax equals the original merchandise total, short of at most one
/// whole-unit rounding loss per record and one for the tax itself.
pub proof fn lemma_derive_conservation(m: Seq<ProductModel>)
    ensures
        sum_prices(devatted(m)) + derived_tax_of(sum_prices(m)) <= sum_prices(m),
        sum_prices(devatted(m)) + derived_tax_of(sum_prices(m)) > sum_prices(m) - m.len() - 1,
        0 <= derived_tax_of(sum_prices(m)) <= sum_prices(m),
        0 <= sum_prices(devatted(m)) <= sum_prices(m),
    decreases m.len(),
{
    let t = sum_prices(m);
    lemma_sum_prices_nonneg(m);
    lemma_devat_sum(m);
    let x = t * 16;
    assert(x == t * (VAT_NUM as int));
    vstd::arithmetic::div_mod::lemma_fundamental_div_mod(x, 100);
    vstd::arithmetic::div_mod::lemma_mod_bound(x, 100);
    assert(x >= 0) by (nonlinear_arith)
        requires
            t >= 0,
            x == t * 16,
    ;
    assert(0 <= x / 100 <= t) by (nonlinear_arith)
        requires
            x == t * 16,
            t >= 0,
            x == 100 * (x / 100) + (x % 100),
            0 <= x % 100 < 100,
    ;
    assert(derived_tax_of(t) == x / 100);
    let sd = sum_prices(devatted(m));
    assert(sd + x / 100 <= t) by (nonlinear_arith)
        requires
            100 * sd <= 84 * t,
            x == t * 16,
            x == 100 * (x / 100) + (x % 100),
            0 <= x % 100 < 100,
    ;
    assert(sd + x / 100 > t - m.len() - 1) by (nonlinear_arith)
        requires
            100 * sd >= 84 * t - 99 * m.len(),
            x == t * 16,
            x == 100 * (x / 100) + (x % 100),
            0 <= x % 100 < 100,
    ;
    assert(sd <= t) by (nonlinear_arith)
        requires
            100 * sd <= 84 * t,
            t >= 0,
            sd >= 0,
    ;
}

/// For groups of at most nine records, the derive path meets a tolerance
/// of one thousandth of a currency unit outright: each record loses less
/// than one price unit to rounding and the tax one more, and ten price
/// units are one thousandth of a currency unit (`MONEY_SCALE` is ten
/// thousand). Larger groups keep the exact per-record bound of
/// `lemma_derive_conservation`.
pub proof fn lemma_derive_conservation_small(m: Seq<ProductModel>)
    requires
        m.len() <= 9,
    ensures
        sum_prices(devatted(m)) + derived_tax_of(sum_prices(m)) <= sum_prices(m),
        sum_prices(m) - (sum_prices(devatted(m)) + derived_tax_of(sum_prices(m))) < 10,
{
    lemma_derive_conservation(m);
}

/// No overshoot on the derive path either: carving the statutory rate out
/// of a price never raises it.
pub proof fn lemma_devat_no_overshoot(m: Seq<ProductModel>)
    ensures
        devatted(m).len() == m.len(),
        forall|i: int|
            0 <= i < m.len() ==> price_of(#[trigger] devatted(m)[i]) <= price_of(m[i]),
{
    assert forall|i: int| 0 <= i < m.len() implies price_of(#[trigger] devatted(m)[i])
        <= price_of(m[i]) by {
        lemma_devat_one(m[i]);
    }
}

/// Classification is a function of the record contents alone: the same
/// records, classified as often as one likes, land in the same groups in
/// the same order.
pub proof fn lemma_classification_deterministic(s1: Seq<ProductModel>, s2: Seq<ProductModel>)
    requires
        s1 == s2,
    ensures
        classified_merch(s1) == classified_merch(s2),
        classified_taxes(s1) == classified_taxes(s2),
        folded_gratuity(s1) == folded_gratuity(s2),
{
}

/// Classification loses no record and invents none: the three groups
/// together are exactly as many as the records that came in.
pub proof fn lemma_classification_partition(s: Seq<ProductModel>)
    ensures
        classified_merch(s).len() + classified_gratuity(s).len() + classified_taxes(s).len()
            == s.len(),
{
    crate::product::lemma_len_split_by_type(s, spec_gratuity_tag());
    crate::product::lemma_len_split_by_type(
        drop_by_type(s, spec_gratuity_tag()),
        spec_tax_tag(),
    );
}

/// The record synthesised on the derive path: the first merchandise
/// record's date and place, the derived-tax item name and the tax category,
/// and the statutory share of the merchandise total as its price.
pub open spec fn derived_tax_record(m: Seq<ProductModel>) -> ProductModel {
    ProductModel {
        date: m[0].date,
        product: "IVA"@,
        product_type: spec_tax_tag(),
        place: m[0].place,
        price: Some(derived_tax_of(sum_prices(m)) as u64),
    }
}

/// A receipt split into its three groups: merchandise, at most one gratuity
/// record, and the declared-tax records (absent when none were declared).
pub struct Invoice {
    pub products: Vec<Product>,
    pub tips: Option<Product>,
    pub taxes: Option<Vec<Product>>,
}

impl Invoice {
    /// Total price of the merchandise group.
    pub open spec fn merch_total(self) -> int {
        sum_prices(self.products.deep_view())
    }

    /// Price of the gratuity record, or zero when there is none.
    pub open spec fn tips_total(self) -> int {
        match self.tips {
            Some(p) => price_of(p@),
            None => 0,
        }
    }

    /// Total price of the tax group, or zero when none was declared.
    pub open spec fn taxes_total(self) -> int {
        match self.taxes {
            Some(v) => sum_prices(v.deep_view()),
            None => 0,
        }
    }

    /// The whole invoice fits the machine: its grand total has to be
    /// representable for the aggregation functions to return it.
    pub open spec fn wf(self) -> bool {
        self.merch_total() + self.tips_total() + self.taxes_total() <= u64::MAX
    }

    /// Splits the raw records into the three groups, by each record's
    /// category.
    ///
    /// Every gratuity-tagged record leaves the list and the group folds
    /// into one record; every tax-tagged record leaves the list into the
    /// tax group; the rest is merchandise, in its original order.
    pub fn new(raw_products: Vec<Product>) -> (inv: Invoice)
        requires
            sum_prices(raw_products.deep_view()) <= u64::MAX,
        ensures
            inv.products.deep_view() == classified_merch(raw_products.deep_view()),
            inv.tips.deep_view() == folded_gratuity(raw_products.deep_view()),
            ({
                let tx = classified_taxes(raw_products.deep_view());
                match inv.taxes {
                    Some(v) => v.deep_view() == tx && tx.len() > 0,
                    None => tx.len() == 0,
                }
            }),
            inv.wf(),
            inv.merch_total() + inv.tips_total() + inv.taxes_total() == sum_prices(
                raw_products.deep_view(),
            ),
    {
        let ghost raw = raw_products.deep_view();
        let mut products = raw_products;
        proof {
            lemma_sum_split_by_type(raw, spec_gratuity_tag());
            lemma_sum_split_by_type(drop_by_type(raw, spec_gratuity_tag()), spec_tax_tag());
            lemma_sum_prices_nonneg(drop_by_type(raw, spec_gratuity_tag()));
            lemma_sum_prices_nonneg(select_by_type(raw, spec_gratuity_tag()));
            lemma_sum_prices_nonneg(classified_merch(raw));
            lemma_sum_prices_nonneg(classified_taxes(raw));
        }
        let tips_group = extract_by_type(&mut products, "Propina");
        let tips = match tips_group {
            None => None,
            Some(g) => {
                let total = calculate_total_from_products(&g);
                let first = &g[0];
                Some(
                    Product {
                        date: first.date.clone(),
                        product: first.product.clone(),
                        product_type: first.product_type.clone(),
                        place: first.place.clone(),
                        price: Some(total),
                    },
                )
            },
        };
        let taxes = extract_by_type(&mut products, "Impuestos");
        Invoice { products, tips, taxes }
    }

    /// Carves the statutory rate out of every merchandise price and returns
    /// the merchandise total as it stood before.
    #[verifier::loop_isolation(false)]
    fn remove_vat_from_products(&mut self) -> (total: u64)
        requires
            sum_prices(old(self).products.deep_view()) <= u64::MAX,
        ensures
            total == sum_prices(old(self).products.deep_view()),
            final(self).products.deep_view() == devatted(old(self).products.deep_view()),
            final(self).tips == old(self).tips,
            final(self).taxes == old(self).taxes,
    {
        let ghost m = old(self).products.deep_view();
        let mut out: Vec<Product> = Vec::new();
        let mut acc: u64 = 0;
        let n = self.products.len();
        let mut i: usize = 0;
        proof {
            lemma_sum_prices_nonneg(m);
        }
        while i < n
            invariant
                n == m.len(),
                i <= n,
                self.products.deep_view() == m,
                out.deep_view() == devatted(m).take(i as int),
                acc == sum_prices(m.take(i as int)),
            decreases n - i,
        {
            proof {
                crate::product::lemma_sum_prices_push(m.take(i as int), m[i as int]);
                assert(m.take(i + 1) =~= m.take(i as int).push(m[i as int]));
                crate::product::lemma_sum_prices_prefix_bound(m, i + 1);
                lemma_devat_one(m[i as int]);
            }
            let p = self.products[i].clone();
            let q = match p.price {
                Some(x) => x,
                None => 0,
            };
            let v = ((q as u128) * ((VAT_DEN - VAT_NUM) as u128) / (VAT_DEN as u128)) as u64;
            out.push(
                Product {
                    date: p.date,
                    product: p.product,
                    product_type: p.product_type,
                    place: p.place,
                    price: Some(v),
                },
            );
            acc = acc + q;
            proof {
                assert(out.deep_view() =~= devatted(m).take(i + 1));
            }
            i = i + 1;
        }
        proof {
            assert(devatted(m).take(n as int) =~= devatted(m));
            assert(m.take(n as int) =~= m);
        }
        self.products = out;
        acc
    }

    /// No tax was declared: derive it. Every merchandise price is treated as
    /// tax-inclusive at the statutory rate, and one tax record is
    /// synthesised for the rate's share of the old merchandise total. An
    /// empty merchandise group has nothing to derive from and is left as it
    /// is.
    fn calculate_taxes_from_products(&mut self)
        requires
            old(self).wf(),
            old(self).taxes is None,
        ensures
            final(self).products.deep_view() == devatted(old(self).products.deep_view()),
            forall|i: int|
                0 <= i < old(self).products.deep_view().len() ==> price_of(
                    #[trigger] final(self).products.deep_view()[i],
                ) <= price_of(old(self).products.deep_view()[i]),
            final(self).tips == old(self).tips,
            old(self).products.deep_view().len() == 0 ==> final(self).taxes is None,
            old(self).products.deep_view().len() > 0 ==> match final(self).taxes {
                Some(v) => v.deep_view() == seq![
                    derived_tax_record(old(self).products.deep_view()),
                ],
                None => false,
            },
            final(self).wf(),
    {
        let ghost m = old(self).products.deep_view();
        proof {
            lemma_derive_conservation(m);
            lemma_devat_no_overshoot(m);
        }
        if self.products.len() == 0 {
            proof {
                assert(devatted(m) =~= m);
            }
            return ;
        }
        let base = self.products[0].clone();
        let total = self.remove_vat_from_products();
        let tax = ((total as u128) * (VAT_NUM as u128) / (VAT_DEN as u128)) as u64;
        let record = Product {
            date: base.date,
            product: "IVA".to_owned(),
            product_type: "Impuestos".to_owned(),
            place: base.place,
            price: Some(tax),
        };
        let taxes = vec![record];
        proof {
            assert(taxes.deep_view() =~= seq![derived_tax_record(m)]);
            let s = seq![derived_tax_record(m)];
            assert(s.drop_last() =~= Seq::<ProductModel>::empty());
            assert(sum_prices(s.drop_last()) == 0);
            assert(s.last() == derived_tax_record(m));
            assert(sum_prices(s) == price_of(derived_tax_record(m)));
        }
        self.taxes = Some(taxes);
    }

    /// Tax was declared: redistribute it. Every merchandise price is scaled
    /// by the shared ratio `(t - d) / t`; the part of `t - d` that
    /// whole-unit rounding left unassigned goes back one unit at a time to
    /// the records that can take it without exceeding their original price.
    /// Degenerate inputs (a merchandise total of zero; a declared tax at or
    /// above the total) short-circuit as `redistributed` describes.
    #[verifier::loop_isolation(false)]
    fn fix_prices_from_taxes(&mut self)
        requires
            old(self).wf(),
            old(self).taxes is Some,
        ensures
            final(self).products.deep_view() == redistributed(
                old(self).products.deep_view(),
                old(self).taxes_total(),
            ),
            forall|i: int|
                0 <= i < old(self).products.deep_view().len() ==> price_of(
                    #[trigger] final(self).products.deep_view()[i],
                ) <= price_of(old(self).products.deep_view()[i]),
            final(self).tips == old(self).tips,
            final(self).taxes == old(self).taxes,
            final(self).wf(),
    {
        let ghost m = old(self).products.deep_view();
        let ghost dd = old(self).taxes_total();
        proof {
            lemma_sum_prices_nonneg(m);
            if let Some(v) = &self.taxes {
                lemma_sum_prices_nonneg(v.deep_view());
            }
            if let Some(p) = &self.tips {
                assert(price_of(p@) >= 0);
            }
            lemma_redistribute_sum_le(m, dd);
            lemma_redistribute_no_overshoot(m, dd);
        }
        let t = self.total_products();
        let d = self.total_taxes();
        if t == 0 {
            return ;
        }
        let n = self.products.len();
        proof {
            if m.len() == 0 {
                assert(m =~= Seq::<ProductModel>::empty());
            }
        }
        if d >= t {
            let mut out: Vec<Product> = Vec::new();
            let mut i: usize = 0;
            while i < n
                invariant
                    n == m.len(),
                    i <= n,
                    self.products.deep_view() == m,
                    out.deep_view() == zeroed(m).take(i as int),
                decreases n - i,
            {
                let p = self.products[i].clone();
                out.push(
                    Product {
                        date: p.date,
                        product: p.product,
                        product_type: p.product_type,
                        place: p.place,
                        price: Some(0),
                    },
                );
                proof {
                    assert(out.deep_view() =~= zeroed(m).take(i + 1));
                }
                i = i + 1;
            }
            proof {
                assert(zeroed(m).take(n as int) =~= zeroed(m));
            }
            self.products = out;
            return ;
        }
        // first pass: scale every price by the shared ratio
        let ghost m1 = scale_merch(m, t as int, d as int);
        let mut scaled: Vec<Product> = Vec::new();
        let mut est: u64 = 0;
        let mut i: usize = 0;
        while i < n
            invariant
                n == m.len(),
                i <= n,
                0 < t,
                d < t,
                self.products.deep_view() == m,
                scaled.deep_view() == m1.take(i as int),
                est == sum_prices(m1.take(i as int)),
                est <= sum_prices(m.take(i as int)),
            decreases n - i,
        {
            proof {
                lemma_scale_quotient(price_of(m[i as int]), t as int, d as int);
                crate::product::lemma_sum_prices_push(m1.take(i as int), m1[i as int]);
                crate::product::lemma_sum_prices_push(m.take(i as int), m[i as int]);
                assert(m1.take(i + 1) =~= m1.take(i as int).push(m1[i as int]));
                assert(m.take(i + 1) =~= m.take(i as int).push(m[i as int]));
                crate::product::lemma_sum_prices_prefix_bound(m, i + 1);
            }
            let p = self.products[i].clone();
            let q = match p.price {
                Some(x) => x,
                None => 0,
            };
            proof {
                assert((q as int) * ((t - d) as int) <= (u64::MAX as int) * (u64::MAX as int))
                    by (nonlinear_arith)
                    requires
                        0 <= q <= u64::MAX,
                        0 <= t - d <= u64::MAX,
                ;
            }
            let v = ((q as u128) * ((t - d) as u128) / (t as u128)) as u64;
            scaled.push(
                Product {
                    date: p.date,
                    product: p.product,
                    product_type: p.product_type,
                    place: p.place,
                    price: Some(v),
                },
            );
            est = est + v;
            proof {
                assert(scaled.deep_view() =~= m1.take(i + 1));
            }
            i = i + 1;
        }
        proof {
            assert(m1.take(n as int) =~= m1);
            assert(m.take(n as int) =~= m);
            lemma_scale_sum(m, t as int, d as int);
            assert(sum_prices(m1) <= t - d) by (nonlinear_arith)
                requires
                    (t as int) * sum_prices(m1) <= ((t - d) as int) * (t as int),
                    t > 0,
                    sum_prices(m) == t as int,
            ;
        }
        // leftover not assigned by whole-unit rounding
        let r = t - d - est;
        // candidate even increment, rounded up to a whole unit
        proof {
            let ri = r as int;
            let ni = n as int;
            let x = ri + ni - 1;
            if n == 1 {
                vstd::arithmetic::div_mod::lemma_div_basics(x);
                assert(x / ni == ri);
            } else {
                vstd::arithmetic::div_mod::lemma_div_is_ordered_by_denominator(x, 2, ni);
                vstd::arithmetic::div_mod::lemma_div_is_ordered(
                    x,
                    2 * (u64::MAX as int),
                    2,
                );
                vstd::arithmetic::div_mod::lemma_div_multiples_vanish(u64::MAX as int, 2);
                assert(x / ni <= u64::MAX);
            }
        }
        let c = ((r as u128 + n as u128 - 1) / (n as u128)) as u64;
        proof {
            assert(c as int == div_ceil(r as int, n as int));
        }
        // second pass: hand the leftover back, one unit to each record that
        // still has headroom, earliest first
        let ghost res = redistributed(m, dd);
        let mut out: Vec<Product> = Vec::new();
        let mut bumped: u64 = 0;
        let mut i: usize = 0;
        while i < n
            invariant
                n == m.len(),
                m1.len() == m.len(),
                i <= n,
                0 < t,
                d < t,
                self.products.deep_view() == m,
                scaled.deep_view() == m1,
                sum_prices(m) == t as int,
                sum_prices(m1) == est as int,
                r == t - d - est,
                c as int == div_ceil(r as int, n as int),
                res == redistributed(m, dd),
                dd == d as int,
                out.deep_view() == res.take(i as int),
                bumped as int == if included_below(m, m1, c as int, i as int) <= r as int {
                    included_below(m, m1, c as int, i as int)
                } else {
                    r as int
                },
            decreases n - i,
        {
            proof {
                lemma_included_below_bounds(m, m1, c as int, i as int);
                lemma_scale_quotient(price_of(m[i as int]), t as int, d as int);
            }
            let op = match self.products[i].price {
                Some(x) => x,
                None => 0,
            };
            let sp = match scaled[i].price {
                Some(x) => x,
                None => 0,
            };
            let included = c <= op && sp <= op - c;
            proof {
                assert(included == is_included(m[i as int], m1[i as int], c as int));
            }
            if included && bumped < r {
                proof {
                    assert(r >= 1);
                    vstd::arithmetic::div_mod::lemma_div_is_ordered(
                        n as int,
                        r as int + n as int - 1,
                        n as int,
                    );
                    vstd::arithmetic::div_mod::lemma_div_by_self(n as int);
                    assert(c >= 1);
                }
                let p = scaled[i].clone();
                out.push(
                    Product {
                        date: p.date,
                        product: p.product,
                        product_type: p.product_type,
                        place: p.place,
                        price: Some(sp + 1),
                    },
                );
                bumped = bumped + 1;
            } else {
                let p = scaled[i].clone();
                out.push(p);
            }
            proof {
                assert(out.deep_view() =~= res.take(i + 1));
            }
            i = i + 1;
        }
        proof {
            assert(res.take(n as int) =~= res);
        }
        self.products = out;
    }

    /// Ensures a definitive tax figure exists and that merchandise prices
    /// are tax-exclusive: declared tax is redistributed and stays untouched
    /// itself; absent tax is derived at the statutory rate. Gratuity is
    /// never changed by either path.
    pub fn calculate_taxes(&mut self)
        requires
            old(self).wf(),
        ensures
            final(self).tips == old(self).tips,
            final(self).wf(),
            match old(self).taxes {
                Some(_) => {
                    &&& final(self).taxes == old(self).taxes
                    &&& final(self).taxes_total() == old(self).taxes_total()
                    &&& final(self).products.deep_view() == redistributed(
                        old(self).products.deep_view(),
                        old(self).taxes_total(),
                    )
                    &&& (old(self).taxes_total() <= old(self).merch_total()
                        ==> final(self).merch_total() == old(self).merch_total() - old(
                        self,
                    ).taxes_total())
                    &&& forall|i: int|
                        0 <= i < old(self).products.deep_view().len() ==> price_of(
                            #[trigger] final(self).products.deep_view()[i],
                        ) <= price_of(old(self).products.deep_view()[i])
                },
                None => {
                    &&& final(self).products.deep_view() == devatted(
                        old(self).products.deep_view(),
                    )
                    &&& (old(self).products.deep_view().len() == 0 ==> final(self).taxes is None)
                    &&& (old(self).products.deep_view().len() > 0 ==> match final(self).taxes {
                        Some(v) => v.deep_view() == seq![
                            derived_tax_record(old(self).products.deep_view()),
                        ],
                        None => false,
                    })
                    &&& final(self).merch_total() + final(self).taxes_total() <= old(
                        self,
                    ).merch_total()
                    &&& final(self).merch_total() + final(self).taxes_total() + old(
                        self,
                    ).products.deep_view().len() + 1 > old(self).merch_total()
                    &&& forall|i: int|
                        0 <= i < old(self).products.deep_view().len() ==> price_of(
                            #[trigger] final(self).products.deep_view()[i],
                        ) <= price_of(old(self).products.deep_view()[i])
                },
            },
    {
        let ghost m = old(self).products.deep_view();
        if self.taxes.is_some() {
            self.fix_prices_from_taxes();
            proof {
                if let Some(v) = &old(self).taxes {
                    lemma_sum_prices_nonneg(v.deep_view());
                }
                lemma_redistribute_no_overshoot(m, old(self).taxes_total());
                if old(self).taxes_total() <= old(self).merch_total() {
                    lemma_redistribute_conservation(m, old(self).taxes_total());
                }
            }
        } else {
            self.calculate_taxes_from_products();
            proof {
                lemma_derive_conservation(m);
                lemma_devat_no_overshoot(m);
                if m.len() > 0 {
                    let rec = derived_tax_record(m);
                    let s = seq![rec];
                    assert(s.drop_last() =~= Seq::<ProductModel>::empty());
                    assert(sum_prices(s.drop_last()) == 0);
                    assert(s.last() == rec);
                    assert(sum_prices(s) == price_of(rec));
                }
            }
        }
    }

    /// Price of the gratuity record, or zero when there is none.
    pub fn total_tips(&self) -> (r: u64)
        ensures
            r == self.tips_total(),
    {
        match &self.tips {
            Some(p) => match p.price {
                Some(x) => x,
                None => 0,
            },
            None => 0,
        }
    }

    /// Total price of the declared or derived tax group.
    pub fn total_taxes(&self) -> (r: u64)
        requires
            self.taxes_total() <= u64::MAX,
        ensures
            r == self.taxes_total(),
    {
        match &self.taxes {
            Some(v) => calculate_total_from_products(v),
            None => 0,
        }
    }

    /// Total price of the merchandise group.
    pub fn total_products(&self) -> (r: u64)
        requires
            self.merch_total() <= u64::MAX,
        ensures
            r == self.merch_total(),
    {
        calculate_total_from_products(&self.products)
    }

    /// The display lines of the invoice, as `show_invoice_chars` describes.
    #[verifier::loop_isolation(false)]
    pub fn show_invoice(&self, show_all: bool) -> (r: Vec<String>)
        ensures
            r.deep_view() == show_invoice_chars(*self, show_all),
    {
        let ghost prods = Seq::new(
            self.products.deep_view().len(),
            |i: int|
                if show_all {
                    show_all_chars(self.products.deep_view()[i])
                } else {
                    show_chars(self.products.deep_view()[i])
                },
        );
        let mut out: Vec<String> = Vec::new();
        let n = self.products.len();
        let mut i: usize = 0;
        proof {
            assert(out.deep_view() =~= prods.take(0));
        }
        while i < n
            invariant
                i <= n,
                n == self.products.deep_view().len(),
                out.deep_view() == prods.take(i as int),
            decreases n - i,
        {
            let line = if show_all {
                self.products[i].show_all()
            } else {
                self.products[i].show()
            };
            out.push(line);
            proof {
                assert(out.deep_view() =~= prods.take(i + 1));
            }
            i = i + 1;
        }
        proof {
            assert(prods.take(n as int) =~= prods);
        }
        match &self.tips {
            Some(p) => {
                let line = if show_all {
                    p.show_all()
                } else {
                    p.show()
                };
                out.push(line);
            },
            None => {},
        }
        let ghost head = out.deep_view();
        match &self.taxes {
            Some(v) => {
                let ghost tax = Seq::new(
                    v.deep_view().len(),
                    |i: int| show_all_chars(v.deep_view()[i]),
                );
                let k = v.len();
                let mut j: usize = 0;
                proof {
                    assert(out.deep_view() =~= head + tax.take(0));
                }
                while j < k
                    invariant
                        j <= k,
                        k == v.deep_view().len(),
                        out.deep_view() == head + tax.take(j as int),
                    decreases k - j,
                {
                    let line = v[j].show_all();
                    proof {
                        assert(v.deep_view()[j as int] == v@[j as int].deep_view());
                        assert(line@ == tax[j as int]);
                    }
                    let ghost prev = out.deep_view();
                    let ghost prev_raw = out@;
                    out.push(line);
                    proof {
                        assert(out@.len() == prev.len() + 1);
                        assert forall|k: int| 0 <= k < prev.len() implies out.deep_view()[k]
                            == prev[k] by {
                            assert(out@[k] == prev_raw[k]);
                        }
                        assert(out.deep_view()[prev.len() as int] == line@);
                        let goal = head + tax.take(j + 1);
                        assert(prev.len() == head.len() + j);
                        assert(goal.len() == prev.len() + 1);
                        assert forall|k: int| 0 <= k < out@.len() implies out.deep_view()[k]
                            == goal[k] by {
                            if k < head.len() {
                                assert(prev[k] == head[k]);
                                assert(goal[k] == head[k]);
                            } else if k < prev.len() {
                                assert(prev[k] == tax.take(j as int)[k - head.len()]);
                                assert(tax.take(j as int)[k - head.len()] == tax[k - head.len()]);
                                assert(goal[k] == tax.take(j + 1)[k - head.len()]);
                                assert(tax.take(j + 1)[k - head.len()] == tax[k - head.len()]);
                            } else {
                                assert(k == prev.len());
                                assert(out.deep_view()[k] == line@);
                                assert(goal[k] == tax.take(j + 1)[j as int]);
                                assert(tax.take(j + 1)[j as int] == tax[j as int]);
                            }
                        }
                        assert(out.deep_view() =~= goal);
                    }
                    j = j + 1;
                }
                proof {
                    assert(tax.take(k as int) =~= tax);
                }
            },
            None => {},
        }
        proof {
            assert(out.deep_view() =~= show_invoice_chars(*self, show_all));
        }
        out
    }

    /// The lines of the summary box, as `resume_chars` describes.
    pub fn print_resume(&self) -> (r: Vec<String>)
        requires
            self.wf(),
        ensures
            r.deep_view() == resume_chars(*self),
    {
        proof {
            reveal_strlit("Products: $");
            reveal_strlit("Tips: $");
            reveal_strlit("Taxes: $");
            reveal_strlit("Total: $");
            lemma_sum_prices_nonneg(self.products.deep_view());
            if let Some(v) = &self.taxes {
                lemma_sum_prices_nonneg(v.deep_view());
            }
        }
        let m_total = self.total_products();
        let t_total = self.total_tips();
        let x_total = self.total_taxes();
        let grand = self.calculate_total();
        let mut products_string = "Products: $".to_owned();
        let money = money_string(m_total);
        products_string.append(money.as_str());
        let tips_string = if t_total > 0 {
            let mut s = "Tips: $".to_owned();
            let money = money_string(t_total);
            s.append(money.as_str());
            s
        } else {
            String::new()
        };
        let mut taxes_string = "Taxes: $".to_owned();
        let money = money_string(x_total);
        taxes_string.append(money.as_str());
        let mut total_string = "Total: $".to_owned();
        let money = money_string(grand);
        total_string.append(money.as_str());
        proof {
            assert(products_string@ =~= products_line_chars(*self));
            assert(tips_string@ =~= tips_line_chars(*self));
            assert(taxes_string@ =~= taxes_line_chars(*self));
            assert(total_string@ =~= total_line_chars(*self));
            lemma_money_chars_len(m_total);
            lemma_money_chars_len(t_total);
            lemma_money_chars_len(x_total);
            lemma_money_chars_len(grand);
        }
        let totals: Vec<&String> = vec![
            &products_string,
            &tips_string,
            &taxes_string,
            &total_string,
        ];
        let ghost tv = totals.deep_view();
        proof {
            assert(tv =~= seq![
                products_line_chars(*self),
                tips_line_chars(*self),
                taxes_line_chars(*self),
                total_line_chars(*self),
            ]);
            let e = Seq::<Seq<char>>::empty();
            assert(max_str_len(e) == 0);
            let s1 = seq![products_line_chars(*self)];
            assert(s1.drop_last() =~= e);
            assert(max_str_len(s1) <= 34);
            let s2 = seq![products_line_chars(*self), tips_line_chars(*self)];
            assert(s2.drop_last() =~= s1);
            assert(max_str_len(s2) <= 34);
            let s3 = seq![
                products_line_chars(*self),
                tips_line_chars(*self),
                taxes_line_chars(*self),
            ];
            assert(s3.drop_last() =~= s2);
            assert(max_str_len(s3) <= 34);
            assert(tv.drop_last() =~= s3);
            assert(max_str_len(tv) <= 34);
            lemma_max_str_len_ge(tv, 0);
            lemma_max_str_len_ge(tv, 1);
            lemma_max_str_len_ge(tv, 2);
            lemma_max_str_len_ge(tv, 3);
        }
        let widest = find_largest_string(&totals);
        let largest_string = if widest > 36 {
            widest
        } else {
            36
        };
        proof {
            assert(largest_string as int == resume_width(*self));
        }
        let mut out: Vec<String> = Vec::new();
        let header = repeat_mark('=', largest_string);
        out.push(header);
        let line = center_line(&products_string, largest_string);
        out.push(line);
        if t_total > 0 {
            let line = center_line(&tips_string, largest_string);
            out.push(line);
        }
        let line = center_line(&taxes_string, largest_string);
        out.push(line);
        let rule = repeat_mark('-', largest_string);
        out.push(rule);
        let line = center_line(&total_string, largest_string);
        out.push(line);
        let footer = repeat_mark('=', largest_string);
        out.push(footer);
        proof {
            assert(out.deep_view() =~= resume_chars(*self));
        }
        out
    }

    /// The grand total is exactly the sum of the three group totals.
    pub fn calculate_total(&self) -> (r: u64)
        requires
            self.wf(),
        ensures
            r == self.merch_total() + self.tips_total() + self.taxes_total(),
    {
        proof {
            lemma_sum_prices_nonneg(self.products.deep_view());
            if let Some(v) = &self.taxes {
                lemma_sum_prices_nonneg(v.deep_view());
            }
        }
        let total = self.total_products();
        let tips = self.total_tips();
        let taxes = self.total_taxes();
        total + tips + taxes
    }
}

/// The display lines of an invoice: one per merchandise record, one for the
/// gratuity if there is one, one per tax record. Merchandise and gratuity
/// show every field or the price alone as asked; tax records always show
/// every field.
pub open spec fn show_invoice_chars(inv: Invoice, show_all: bool) -> Seq<Seq<char>> {
    let prods = Seq::new(
        inv.products.deep_view().len(),
        |i: int|
            if show_all {
                show_all_chars(inv.products.deep_view()[i])
            } else {
                show_chars(inv.products.deep_view()[i])
            },
    );
    let tip = match inv.tips {
        Some(p) => seq![
            if show_all {
                show_all_chars(p@)
            } else {
                show_chars(p@)
            },
        ],
        None => Seq::<Seq<char>>::empty(),
    };
    let tax = match inv.taxes {
        Some(v) => Seq::new(v.deep_view().len(), |i: int| show_all_chars(v.deep_view()[i])),
        None => Seq::<Seq<char>>::empty(),
    };
    prods + tip + tax
}

/// The text of the merchandise line of the summary box.
pub open spec fn products_line_chars(inv: Invoice) -> Seq<char> {
    "Products: $"@ + money_chars(inv.merch_total() as u64)
}

/// The text of the gratuity line of the summary box; empty when there is no
/// gratuity to report.
pub open spec fn tips_line_chars(inv: Invoice) -> Seq<char> {
    if inv.tips_total() > 0 {
        "Tips: $"@ + money_chars(inv.tips_total() as u64)
    } else {
        Seq::<char>::empty()
    }
}

/// The text of the tax line of the summary box.
pub open spec fn taxes_line_chars(inv: Invoice) -> Seq<char> {
    "Taxes: $"@ + money_chars(inv.taxes_total() as u64)
}

/// The text of the grand-total line of the summary box.
pub open spec fn total_line_chars(inv: Invoice) -> Seq<char> {
    "Total: $"@ + money_chars((inv.merch_total() + inv.tips_total() + inv.taxes_total()) as u64)
}

/// The width of the summary box: wide enough for its widest line plus
/// margin, and never narrower than a fixed minimum.
pub open spec fn resume_width(inv: Invoice) -> int {
    let m = max_str_len(
        seq![
            products_line_chars(inv),
            tips_line_chars(inv),
            taxes_line_chars(inv),
            total_line_chars(inv),
        ],
    ) + 4;
    if m > 36 {
        m
    } else {
        36
    }
}

/// The lines of the summary box: a border, the totals centred one per line
/// (the gratuity line only when there is a gratuity), a rule before the
/// grand total, and a closing border.
pub open spec fn resume_chars(inv: Invoice) -> Seq<Seq<char>> {
    let w = resume_width(inv);
    seq![repeat_char('=', w), centered(products_line_chars(inv), w)] + (if inv.tips_total() > 0 {
        seq![centered(tips_line_chars(inv), w)]
    } else {
        Seq::<Seq<char>>::empty()
    }) + seq![
        centered(taxes_line_chars(inv), w),
        repeat_char('-', w),
        centered(total_line_chars(inv), w),
        repeat_char('=', w),
    ]
}

/// The length of the longest string in the sequence.
pub open spec fn max_str_len(s: Seq<Seq<char>>) -> int
    decreases s.len(),
{
    if s.len() == 0 {
        0
    } else {
        let m = max_str_len(s.drop_last());
        if s.last().len() > m {
            s.last().len() as int
        } else {
            m
        }
    }
}

/// The width that fits the widest of the given strings, plus margin.
#[verifier::loop_isolation(false)]
pub fn find_largest_string(strings: &Vec<&String>) -> (r: usize)
    requires
        max_str_len(strings.deep_view()) + 4 <= usize::MAX,
    ensures
        r == max_str_len(strings.deep_view()) + 4,
{
    let ghost sv = strings.deep_view();
    let mut acc: usize = 0;
    let n = strings.len();
    let mut i: usize = 0;
    proof {
        assert(sv.take(0) =~= Seq::<Seq<char>>::empty());
    }
    while i < n
        invariant
            i <= n,
            n == sv.len(),
            strings.deep_view() == sv,
            acc == max_str_len(sv.take(i as int)),
            acc <= max_str_len(sv),
        decreases n - i,
    {
        proof {
            assert(sv.take(i + 1).drop_last() =~= sv.take(i as int));
            assert(sv.take(i + 1).last() == sv[i as int]);
            lemma_max_str_len_prefix(sv, i + 1);
        }
        let len = strings[i].as_str().unicode_len();
        if len > acc {
            acc = len;
        }
        i = i + 1;
    }
    proof {
        assert(sv.take(n as int) =~= sv);
    }
    acc + 4
}

proof fn lemma_max_str_len_prefix(s: Seq<Seq<char>>, i: int)
    requires
        0 <= i <= s.len(),
    ensures
        max_str_len(s.take(i)) <= max_str_len(s),
        max_str_len(s) >= 0,
    decreases s.len() - i,
{
    if i < s.len() {
        assert(s.take(i + 1).drop_last() =~= s.take(i));
        lemma_max_str_len_prefix(s, i + 1);
    } else {
        assert(s.take(i) =~= s);
        lemma_max_str_len_nonneg(s);
    }
}

proof fn lemma_max_str_len_nonneg(s: Seq<Seq<char>>)
    ensures
        max_str_len(s) >= 0,
    decreases s.len(),
{
    if s.len() > 0 {
        lemma_max_str_len_nonneg(s.drop_last());
    }
}

/// A run of one mark, as wide as the box.
pub open spec fn repeat_char(c: char, n: int) -> Seq<char>
    decreases n,
{
    if n <= 0 {
        Seq::empty()
    } else {
        repeat_char(c, n - 1) + seq![c]
    }
}

/// A string centred in a bordered box line of width `w`.
pub open spec fn centered(x: Seq<char>, w: int) -> Seq<char> {
    let fill = w - x.len();
    let left = fill / 2 - 1;
    let right = fill - left - 2;
    seq!['|'] + repeat_char(' ', left) + x + repeat_char(' ', right) + seq!['|']
}

/// Writes a run of the given box-drawing mark.
#[verifier::loop_isolation(false)]
fn repeat_mark(c: char, n: usize) -> (r: String)
    requires
        c == '=' || c == '-' || c == ' ',
    ensures
        r@ == repeat_char(c, n as int),
{
    proof {
        reveal_strlit("=");
        reveal_strlit("-");
        reveal_strlit(" ");
    }
    let mut s = String::new();
    let mut i: usize = 0;
    proof {
        assert(s@ =~= repeat_char(c, 0));
    }
    while i < n
        invariant
            i <= n,
            s@ == repeat_char(c, i as int),
        decreases n - i,
    {
        if c == '=' {
            s.append("=");
        } else if c == '-' {
            s.append("-");
        } else {
            s.append(" ");
        }
        proof {
            assert(s@ =~= repeat_char(c, i + 1));
        }
        i = i + 1;
    }
    s
}

proof fn lemma_dec_chars_len(n: int, k: int)
    requires
        1 <= k,
        0 <= n < crate::product::spec_pow10(k),
    ensures
        1 <= dec_chars(n).len() <= k,
    decreases k,
{
    if n >= 10 {
        assert(k >= 2) by {
            assert(crate::product::spec_pow10(0) == 1);
            assert(crate::product::spec_pow10(1) == 10);
            if k == 1 {
            }
        }
        vstd::arithmetic::div_mod::lemma_fundamental_div_mod(n, 10);
        vstd::arithmetic::div_mod::lemma_mod_bound(n, 10);
        assert(n / 10 < crate::product::spec_pow10(k - 1)) by (nonlinear_arith)
            requires
                n == 10 * (n / 10) + n % 10,
                0 <= n % 10 < 10,
                n < 10 * crate::product::spec_pow10(k - 1),
        ;
        lemma_dec_chars_len(n / 10, k - 1);
    }
}

/// A price never takes more than a couple of dozen characters to write.
proof fn lemma_money_chars_len(u: u64)
    ensures
        4 <= money_chars(u).len() <= 23,
{
    let cents = ((u + 50) / 100) as int;
    vstd::arithmetic::div_mod::lemma_fundamental_div_mod(u + 50, 100);
    vstd::arithmetic::div_mod::lemma_mod_bound(u + 50, 100);
    assert(cents >= 0) by (nonlinear_arith)
        requires
            u + 50 == 100 * cents + ((u + 50) % 100),
            0 <= (u + 50) % 100 < 100,
    ;
    vstd::arithmetic::div_mod::lemma_fundamental_div_mod(cents, 100);
    vstd::arithmetic::div_mod::lemma_mod_bound(cents, 100);
    let whole = cents / 100;
    assert(0 <= whole <= u64::MAX) by (nonlinear_arith)
        requires
            cents == 100 * whole + (cents % 100),
            0 <= cents % 100 < 100,
            0 <= cents <= (u64::MAX + 50) / 100 * 100 + 99,
            u + 50 == 100 * cents + ((u + 50) % 100),
            0 <= (u + 50) % 100 < 100,
            u <= u64::MAX,
    ;
    assert(crate::product::spec_pow10(20) > u64::MAX) by {
        assert(crate::product::spec_pow10(0) == 1);
        assert(crate::product::spec_pow10(1) == 10);
        assert(crate::product::spec_pow10(2) == 100);
        assert(crate::product::spec_pow10(3) == 1000);
        assert(crate::product::spec_pow10(4) == 10000);
        assert(crate::product::spec_pow10(5) == 100000);
        assert(crate::product::spec_pow10(6) == 1000000);
        assert(crate::product::spec_pow10(7) == 10000000);
        assert(crate::product::spec_pow10(8) == 100000000);
        assert(crate::product::spec_pow10(9) == 1000000000);
        assert(crate::product::spec_pow10(10) == 10000000000);
        assert(crate::product::spec_pow10(11) == 100000000000);
        assert(crate::product::spec_pow10(12) == 1000000000000);
        assert(crate::product::spec_pow10(13) == 10000000000000);
        assert(crate::product::spec_pow10(14) == 100000000000000);
        assert(crate::product::spec_pow10(15) == 1000000000000000);
        assert(crate::product::spec_pow10(16) == 10000000000000000);
        assert(crate::product::spec_pow10(17) == 100000000000000000);
        assert(crate::product::spec_pow10(18) == 1000000000000000000);
        assert(crate::product::spec_pow10(19) == 10000000000000000000);
        assert(crate::product::spec_pow10(20) == 100000000000000000000);
    }
    lemma_dec_chars_len(whole, 20);
}

/// No string in a sequence is longer than the sequence's longest.
proof fn lemma_max_str_len_ge(s: Seq<Seq<char>>, i: int)
    requires
        0 <= i < s.len(),
    ensures
        s[i].len() <= max_str_len(s),
    decreases s.len(),
{
    if i < s.len() - 1 {
        lemma_max_str_len_ge(s.drop_last(), i);
        assert(s.drop_last()[i] == s[i]);
        lemma_max_str_len_nonneg(s.drop_last());
    }
}

/// Centres a string in a bordered box line of width `w`.
fn center_line(x: &String, w: usize) -> (r: String)
    requires
        x@.len() + 4 <= w,
    ensures
        r@ == centered(x@, w as int),
{
    proof {
        reveal_strlit("|");
    }
    let len = x.as_str().unicode_len();
    let fill = w - len;
    proof {
        vstd::arithmetic::div_mod::lemma_div_is_ordered(4, fill as int, 2);
        assert(4int / 2 == 2);
    }
    let left = fill / 2 - 1;
    let right = fill - left - 2;
    let mut s = String::new();
    s.append("|");
    let pad_left = repeat_mark(' ', left);
    s.append(pad_left.as_str());
    s.append(x.as_str());
    let pad_right = repeat_mark(' ', right);
    s.append(pad_right.as_str());
    s.append("|");
    proof {
        assert(s@ =~= centered(x@, w as int));
    }
    s
}

} // verus!
