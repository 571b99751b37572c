//! Orders as the order server lists them: products by name and amount.
use vstd::prelude::*;

use crate::text::{chars_of, same_chars};

verus! {

/// A grid position given by column and row.
#[derive(Clone, Copy, Debug, PartialEq, Eq, Structural)]
pub struct Position {
    pub x: usize,
    pub y: usize,
}

/// One product of an order: its type (such as `Red block`) and amount.
pub struct ProductOrder {
    pub product_type: String,
    pub total_product_amount: u16,
}

/// An order: its id and the products it asks for.
pub struct Order {
    pub id: u32,
    pub amount: Vec<ProductOrder>,
}

/// The slot (red, yellow, green, blue) that a product type counts towards;
/// `None` for any other type.
pub open spec fn product_slot(name: Seq<char>) -> Option<int> {
    if name == seq!['R', 'e', 'd', ' ', 'b', 'l', 'o', 'c', 'k'] {
        Some(0)
    } else if name == seq!['Y', 'e', 'l', 'l', 'o', 'w', ' ', 'b', 'l', 'o', 'c', 'k'] {
        Some(1)
    } else if name == seq!['G', 'r', 'e', 'e', 'n', ' ', 'b', 'l', 'o', 'c', 'k'] {
        Some(2)
    } else if name == seq!['B', 'l', 'u', 'e', ' ', 'b', 'l', 'o', 'c', 'k'] {
        Some(3)
    } else {
        None
    }
}

/// The total amount per colour (red, yellow, green, blue) of `items`;
/// `None` for an unknown product type or a total beyond `u16`.
pub open spec fn tally(items: Seq<ProductOrder>) -> Option<Seq<u16>>
    decreases items.len(),
{
    if items.len() == 0 {
        Some(seq![0u16, 0u16, 0u16, 0u16])
    } else {
        match tally(items.drop_last()) {
            Some(t) => match product_slot(items.last().product_type@) {
                Some(i) => if t[i] + items.last().total_product_amount > 0xffff {
                    None
                } else {
                    Some(t.update(i, (t[i] + items.last().total_product_amount) as u16))
                },
                None => None,
            },
            None => None,
        }
    }
}

/// The slot of a product type.
fn slot_of(name: &String) -> (r: Option<usize>)
    ensures
        match r {
            Some(i) => product_slot(name@) == Some(i as int),
            None => product_slot(name@) is None,
        },
{
    let text: Vec<char> = chars_of(name.as_str());
    let red: Vec<char> = vec!['R', 'e', 'd', ' ', 'b', 'l', 'o', 'c', 'k'];
    let yellow: Vec<char> = vec!['Y', 'e', 'l', 'l', 'o', 'w', ' ', 'b', 'l', 'o', 'c', 'k'];
    let green: Vec<char> = vec!['G', 'r', 'e', 'e', 'n', ' ', 'b', 'l', 'o', 'c', 'k'];
    let blue: Vec<char> = vec!['B', 'l', 'u', 'e', ' ', 'b', 'l', 'o', 'c', 'k'];
    if same_chars(&text, &red) {
        Some(0)
    } else if same_chars(&text, &yellow) {
        Some(1)
    } else if same_chars(&text, &green) {
        Some(2)
    } else if same_chars(&text, &blue) {
        Some(3)
    } else {
        None
    }
}

impl Order {
    /// How many blocks of each colour (red, yellow, green, blue) the order
    /// asks for, adding up the amounts of its products.
    pub fn product_totals(&self) -> (r: [u16; 4])
        requires
            tally(self.amount@) is Some,
        ensures
            tally(self.amount@) == Some(r@),
    {
        let mut totals: [u16; 4] = [0, 0, 0, 0];
        let mut i: usize = 0;
        assert(self.amount@.take(0) =~= Seq::<ProductOrder>::empty());
        assert(totals@ =~= seq![0u16, 0u16, 0u16, 0u16]);
        while i < self.amount.len()
            invariant
                i <= self.amount.len(),
                tally(self.amount@) is Some,
                tally(self.amount@.take(i as int)) == Some(totals@),
            decreases self.amount.len() - i,
        {
            let e: &ProductOrder = &self.amount[i];
            proof {
                assert(self.amount@.take(i + 1).drop_last() =~= self.amount@.take(i as int));
                lemma_tally_prefix(self.amount@, i + 1);
            }
            let slot: usize = match slot_of(&e.product_type) {
                Some(s) => s,
                None => vstd::pervasive::unreached(),
            };
            totals[slot] = totals[slot] + e.total_product_amount;
            i += 1;
            assert(totals@ =~= tally(self.amount@.take(i as int))->0);
        }
        assert(self.amount@.take(i as int) =~= self.amount@);
        totals
    }
}

/// A tally that succeeds on a whole list succeeds on each of its prefixes.
proof fn lemma_tally_prefix(items: Seq<ProductOrder>, k: int)
    requires
        0 <= k <= items.len(),
        tally(items) is Some,
    ensures
        tally(items.take(k)) is Some,
    decreases items.len() - k,
{
    if k < items.len() {
        lemma_tally_prefix(items, k + 1);
        assert(items.take(k + 1).drop_last() =~= items.take(k));
    } else {
        assert(items.take(k) =~= items);
    }
}

/// The product names in the order of the totals: red, yellow, green, blue.
pub open spec fn product_names() -> Seq<Seq<char>> {
    seq![
        seq!['R', 'e', 'd', ' ', 'b', 'l', 'o', 'c', 'k'],
        seq!['Y', 'e', 'l', 'l', 'o', 'w', ' ', 'b', 'l', 'o', 'c', 'k'],
        seq!['G', 'r', 'e', 'e', 'n', ' ', 'b', 'l', 'o', 'c', 'k'],
        seq!['B', 'l', 'u', 'e', ' ', 'b', 'l', 'o', 'c', 'k'],
    ]
}

proof fn lemma_tally_len(items: Seq<ProductOrder>)
    ensures
        tally(items) matches Some(t) ==> t.len() == 4,
    decreases items.len(),
{
    if items.len() > 0 {
        lemma_tally_len(items.drop_last());
    }
}

/// Adding one more product to an order adds its amount to the total of its
/// own colour (the `j`-th total counts the products named
/// `product_names()[j]`) and keeps the other three totals; it fails exactly
/// when the name is none of the four or that total would pass `u16::MAX`.
pub proof fn law_tally_adds_product(items: Seq<ProductOrder>, p: ProductOrder)
    requires
        tally(items) is Some,
    ensures
        ({
            let t = tally(items)->0;
            let known = exists|i: int| 0 <= i < 4 && p.product_type@ == #[trigger] product_names()[i];
            &&& t.len() == 4
            &&& tally(items.push(p)) is None <==> (!known || exists|i: int|
                0 <= i < 4 && p.product_type@ == #[trigger] product_names()[i] && t[i]
                    + p.total_product_amount > 0xffff)
            &&& tally(items.push(p)) matches Some(t2) ==> forall|j: int|
                0 <= j < 4 ==> #[trigger] t2[j] as int == t[j] + if p.product_type@
                    == product_names()[j] {
                    p.total_product_amount as int
                } else {
                    0
                }
        }),
{
    lemma_tally_len(items);
    let t = tally(items)->0;
    let name = p.product_type@;
    assert(items.push(p).drop_last() =~= items);
    assert(items.push(p).last() == p);
    assert forall|i: int| 0 <= i < 4 implies (product_slot(name) == Some(i) <==> name
        == #[trigger] product_names()[i]) by {
        assert(product_names()[0].len() == 9);
        assert(product_names()[1].len() == 12);
        assert(product_names()[2].len() == 11);
        assert(product_names()[3].len() == 10);
    }
    if let Some(i) = product_slot(name) {
        assert(name == product_names()[i]);
    }
}

} // verus!
