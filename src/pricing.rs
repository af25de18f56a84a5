use vstd::prelude::*;
use vstd::utf8::encode_utf8;

use crate::error::SalesError;
use crate::order::{compare_bytes, lemma_bytes_cmp_facts};

verus! {

/// Unit price of a product, by the UTF-8 bytes of its name.
pub open spec fn unit_price_spec(name: Seq<u8>) -> Option<u64> {
    if name == encode_utf8("Coffee"@) {
        Some(35)
    } else if name == encode_utf8("Tea"@) {
        Some(39)
    } else if name == encode_utf8("Cake"@) {
        Some(45)
    } else {
        None
    }
}

/// Looks up the unit price of a product.
pub fn unit_price(category: &str) -> (r: Result<u64, SalesError>)
    ensures
        match unit_price_spec(encode_utf8(category@)) {
            Some(p) => r == Ok::<u64, SalesError>(p),
            None => r == Err::<u64, SalesError>(SalesError::UnknownCategory),
        },
{
    let b = category.as_bytes();
    let coffee = "Coffee".as_bytes();
    let tea = "Tea".as_bytes();
    let cake = "Cake".as_bytes();
    proof {
        lemma_bytes_cmp_facts(b@, coffee@);
        lemma_bytes_cmp_facts(b@, tea@);
        lemma_bytes_cmp_facts(b@, cake@);
    }
    if compare_bytes(b, coffee) == 0 {
        Ok(35)
    } else if compare_bytes(b, tea) == 0 {
        Ok(39)
    } else if compare_bytes(b, cake) == 0 {
        Ok(45)
    } else {
        Err(SalesError::UnknownCategory)
    }
}

/// Price of a sale of `quantity` units of a product.
pub fn line_price(category: &str, quantity: u32) -> (r: Result<u64, SalesError>)
    ensures
        match unit_price_spec(encode_utf8(category@)) {
            Some(p) => r == Ok::<u64, SalesError>((p * quantity) as u64),
            None => r == Err::<u64, SalesError>(SalesError::UnknownCategory),
        },
{
    let unit = unit_price(category)?;
    assert(unit <= 45);
    assert(unit * (quantity as u64) <= 45 * 4294967295) by (nonlinear_arith)
        requires
            unit <= 45,
            quantity <= 4294967295,
    ;
    Ok(unit * quantity as u64)
}

} // verus!
