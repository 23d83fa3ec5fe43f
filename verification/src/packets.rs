//! Nested packet values and their recursive ordering: integers compare
//! numerically, lists lexicographically, and a lone integer compares as a
//! one-element list.

use vstd::prelude::*;

verus! {

#[derive(Debug, PartialEq, Eq)]
pub enum Order {
    Right,
    Wrong,
}

#[derive(Debug, PartialEq, Eq)]
pub enum Item {
    Int(u32),
    List(Vec<Item>),
}

/// Decided order of a pair, or undecided for equal content.
pub open spec fn compare_spec(a: Item, b: Item) -> Option<Order>
    decreases a, b, 1int,
{
    match (a, b) {
        (Item::Int(x), Item::Int(y)) => {
            if x < y {
                Some(Order::Right)
            } else if x > y {
                Some(Order::Wrong)
            } else {
                None
            }
        },
        (Item::List(va), Item::Int(y)) => {
            if va@.len() == 0 {
                Some(Order::Right)
            } else {
                match compare_spec(va@[0], Item::Int(y)) {
                    Some(o) => Some(o),
                    None => {
                        if va@.len() > 1 {
                            Some(Order::Wrong)
                        } else {
                            None
                        }
                    },
                }
            }
        },
        (Item::Int(x), Item::List(vb)) => {
            if vb@.len() == 0 {
                Some(Order::Wrong)
            } else {
                match compare_spec(Item::Int(x), vb@[0]) {
                    Some(o) => Some(o),
                    None => {
                        if vb@.len() > 1 {
                            Some(Order::Right)
                        } else {
                            None
                        }
                    },
                }
            }
        },
        (Item::List(va), Item::List(vb)) => compare_lists(va@, vb@, 0),
    }
}

/// Compare two lists pairwise from position `i` on, falling back to their
/// lengths.
pub open spec fn compare_lists(va: Seq<Item>, vb: Seq<Item>, i: int) -> Option<Order>
    decreases va, vb, 0int, va.len() - i,
{
    if i < 0 || i >= va.len() || i >= vb.len() {
        if va.len() < vb.len() {
            Some(Order::Right)
        } else if va.len() > vb.len() {
            Some(Order::Wrong)
        } else {
            None
        }
    } else {
        match compare_spec(va[i], vb[i]) {
            Some(o) => Some(o),
            None => compare_lists(va, vb, i + 1),
        }
    }
}

/// A list holding a single integer.
pub fn singleton(x: u32) -> (r: Item)
    ensures
        r matches Item::List(v) && v@.len() == 1 && v@[0] == Item::Int(x),
{
    let mut v: Vec<Item> = Vec::new();
    v.push(Item::Int(x));
    Item::List(v)
}

/// Append a child to a list item.
pub fn insert(parent: &mut Item, child: Item)
    requires
        *old(parent) matches Item::List(_),
    ensures
        ({
            &&& *old(parent) matches Item::List(v0)
            &&& *final(parent) matches Item::List(v1) && v1@ == v0@.push(child)
        }),
{
    match parent {
        Item::List(ref mut v) => {
            v.push(child);
        },
        _ => {
            proof {
                assert(false);
            }
        },
    }
}

/// Decide which of the two packets comes first, or neither for equal
/// content. Returns exactly `compare_spec`.
pub fn compare(a: &Item, b: &Item) -> (r: Option<Order>)
    ensures
        r == compare_spec(*a, *b),
    decreases *a, *b, 1int,
{
    match (a, b) {
        (Item::Int(x), Item::Int(y)) => {
            if *x < *y {
                Some(Order::Right)
            } else if *x > *y {
                Some(Order::Wrong)
            } else {
                None
            }
        },
        (Item::List(va), Item::Int(y)) => {
            if va.len() == 0 {
                Some(Order::Right)
            } else {
                let first = compare(&va[0], b);
                match first {
                    Some(o) => Some(o),
                    None => {
                        if va.len() > 1 {
                            Some(Order::Wrong)
                        } else {
                            None
                        }
                    },
                }
            }
        },
        (Item::Int(x), Item::List(vb)) => {
            if vb.len() == 0 {
                Some(Order::Wrong)
            } else {
                let first = compare(a, &vb[0]);
                match first {
                    Some(o) => Some(o),
                    None => {
                        if vb.len() > 1 {
                            Some(Order::Right)
                        } else {
                            None
                        }
                    },
                }
            }
        },
        (Item::List(va), Item::List(vb)) => {
            let mut i: usize = 0;
            loop
                invariant
                    0 <= i <= va@.len(),
                    i <= vb@.len(),
                    compare_lists(va@, vb@, i as int) == compare_lists(va@, vb@, 0),
                    a == Item::List(*va) && b == Item::List(*vb),
                decreases va@.len() - i,
            {
                if i >= va.len() || i >= vb.len() {
                    let r = if va.len() < vb.len() {
                        Some(Order::Right)
                    } else if va.len() > vb.len() {
                        Some(Order::Wrong)
                    } else {
                        None
                    };
                    return r;
                }
                let c = compare(&va[i], &vb[i]);
                if let Some(o) = c {
                    return Some(o);
                }
                i += 1;
            }
        },
    }
}

} // verus!
