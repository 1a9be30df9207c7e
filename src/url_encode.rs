//! Percent-encoding of a 20-byte identifier for a tracker query string.
use vstd::prelude::*;

use crate::digest::{hex_encode, hex_of};

verus! {

/// Every byte written as `%` and two lowercase hex digits.
pub open spec fn url_encoded(t: Seq<u8>) -> Seq<char>
    decreases t.len(),
{
    if t.len() == 0 {
        seq![]
    } else {
        url_encoded(t.drop_last()) + seq!['%'] + hex_of(seq![t.last()])
    }
}

/// Percent-encodes every byte of `t`.
pub fn url_encode(t: &[u8; 20]) -> (r: String)
    ensures
        r@ == url_encoded(t@),
{
    let mut encoded = String::new();
    let mut i: usize = 0;
    proof {
        reveal_strlit("%");
    }
    while i < 20
        invariant
            0 <= i <= 20,
            t@.len() == 20,
            "%"@ == seq!['%'],
            encoded@ == url_encoded(t@.subrange(0, i as int)),
        decreases 20 - i,
    {
        let one: Vec<u8> = vec![t[i]];
        let hex = hex_encode(one.as_slice());
        encoded.append("%");
        encoded.append(hex.as_str());
        proof {
            let s = t@.subrange(0, i + 1);
            assert(s.drop_last() =~= t@.subrange(0, i as int));
            assert(one@ =~= seq![s.last()]);
        }
        i = i + 1;
    }
    assert(t@.subrange(0, 20) =~= t@);
    encoded
}

} // verus!
