//! The shape catalog: the seven fixed tetromino variants and their
//! canonical binary layouts.

use vstd::prelude::*;

use crate::tetramino::{count_ones, layout_wf, row_ones};

verus! {

/// One of the seven fixed tetromino forms.
#[derive(Clone, Copy, PartialEq, Eq, Structural, Debug)]
pub enum Variant {
    O,
    I,
    S,
    Z,
    L,
    J,
    T,
}

/// The canonical layout of a variant: a rectangular binary matrix with
/// exactly four filled cells.
pub open spec fn layout_spec(v: Variant) -> Seq<Seq<u8>> {
    match v {
        Variant::O => seq![seq![1u8, 1u8], seq![1u8, 1u8]],
        Variant::I => seq![seq![1u8, 1u8, 1u8, 1u8]],
        Variant::S => seq![seq![0u8, 1u8, 1u8], seq![1u8, 1u8, 0u8]],
        Variant::Z => seq![seq![1u8, 1u8, 0u8], seq![0u8, 1u8, 1u8]],
        Variant::L => seq![seq![1u8, 0u8, 0u8], seq![1u8, 1u8, 1u8]],
        Variant::J => seq![seq![0u8, 0u8, 1u8], seq![1u8, 1u8, 1u8]],
        Variant::T => seq![seq![0u8, 1u8, 0u8], seq![1u8, 1u8, 1u8]],
    }
}

/// The catalog order of the variants, used when a shape is drawn at random.
pub open spec fn variant_at(i: int) -> Variant {
    if i == 0 {
        Variant::O
    } else if i == 1 {
        Variant::I
    } else if i == 2 {
        Variant::S
    } else if i == 3 {
        Variant::Z
    } else if i == 4 {
        Variant::L
    } else if i == 5 {
        Variant::J
    } else {
        Variant::T
    }
}

impl Variant {
    /// Returns the shape matrix associated with each variant.
    pub fn default_layout(&self) -> (r: Vec<Vec<u8>>)
        ensures
            r.deep_view() == layout_spec(*self),
    {
        let r: Vec<Vec<u8>> = match self {
            Variant::O => vec![vec![1u8, 1u8], vec![1u8, 1u8]],
            Variant::I => vec![vec![1u8, 1u8, 1u8, 1u8]],
            Variant::S => vec![vec![0u8, 1u8, 1u8], vec![1u8, 1u8, 0u8]],
            Variant::Z => vec![vec![1u8, 1u8, 0u8], vec![0u8, 1u8, 1u8]],
            Variant::L => vec![vec![1u8, 0u8, 0u8], vec![1u8, 1u8, 1u8]],
            Variant::J => vec![vec![0u8, 0u8, 1u8], vec![1u8, 1u8, 1u8]],
            Variant::T => vec![vec![0u8, 1u8, 0u8], vec![1u8, 1u8, 1u8]],
        };
        proof {
            assert(r.deep_view() =~~= layout_spec(*self));
        }
        r
    }

    /// The variant at a given position of the catalog order.
    pub fn from_index(i: usize) -> (r: Variant)
        requires
            i < 7,
        ensures
            r == variant_at(i as int),
    {
        match i {
            0 => Variant::O,
            1 => Variant::I,
            2 => Variant::S,
            3 => Variant::Z,
            4 => Variant::L,
            5 => Variant::J,
            _ => Variant::T,
        }
    }
}

/// Counting filled cells in a one-row layout reduces to its row.
proof fn lemma_count_one_row(r0: Seq<u8>)
    ensures
        count_ones(seq![r0]) == row_ones(r0),
{
    assert(count_ones(Seq::<Seq<u8>>::empty()) == 0);
    assert(seq![r0].drop_last() =~= Seq::<Seq<u8>>::empty());
}

/// Counting filled cells in a two-row layout reduces to its rows.
proof fn lemma_count_two_rows(r0: Seq<u8>, r1: Seq<u8>)
    ensures
        count_ones(seq![r0, r1]) == row_ones(r0) + row_ones(r1),
{
    assert(seq![r0, r1].drop_last() =~= seq![r0]);
    lemma_count_one_row(r0);
}

/// The filled-cell count of a two-cell row.
proof fn lemma_row_ones_2(a: u8, b: u8)
    ensures
        row_ones(seq![a, b]) == (if a == 1 {
            1int
        } else {
            0int
        }) + (if b == 1 {
            1int
        } else {
            0int
        }),
{
    assert(row_ones(Seq::<u8>::empty()) == 0);
    assert(seq![a].drop_last() =~= Seq::<u8>::empty());
    assert(row_ones(seq![a]) == if a == 1 {
        1int
    } else {
        0int
    });
    assert(seq![a, b].drop_last() =~= seq![a]);
}

/// The filled-cell count of a three-cell row.
proof fn lemma_row_ones_3(a: u8, b: u8, c: u8)
    ensures
        row_ones(seq![a, b, c]) == (if a == 1 {
            1int
        } else {
            0int
        }) + (if b == 1 {
            1int
        } else {
            0int
        }) + (if c == 1 {
            1int
        } else {
            0int
        }),
{
    assert(seq![a, b, c].drop_last() =~= seq![a, b]);
    lemma_row_ones_2(a, b);
}

/// The filled-cell count of a four-cell row.
proof fn lemma_row_ones_4(a: u8, b: u8, c: u8, d: u8)
    ensures
        row_ones(seq![a, b, c, d]) == (if a == 1 {
            1int
        } else {
            0int
        }) + (if b == 1 {
            1int
        } else {
            0int
        }) + (if c == 1 {
            1int
        } else {
            0int
        }) + (if d == 1 {
            1int
        } else {
            0int
        }),
{
    assert(seq![a, b, c, d].drop_last() =~= seq![a, b, c]);
    lemma_row_ones_3(a, b, c);
}

/// Every catalog layout is a rectangular binary matrix holding exactly
/// four filled cells; `default_layout` returns it unchanged on every
/// call, so repeated calls agree.
pub proof fn lemma_layout_for_properties(v: Variant)
    ensures
        layout_wf(layout_spec(v)),
        count_ones(layout_spec(v)) == 4,
{
    match v {
        Variant::O => {
            lemma_count_two_rows(seq![1u8, 1u8], seq![1u8, 1u8]);
            lemma_row_ones_2(1u8, 1u8);
        },
        Variant::I => {
            lemma_count_one_row(seq![1u8, 1u8, 1u8, 1u8]);
            lemma_row_ones_4(1u8, 1u8, 1u8, 1u8);
        },
        Variant::S => {
            lemma_count_two_rows(seq![0u8, 1u8, 1u8], seq![1u8, 1u8, 0u8]);
            lemma_row_ones_3(0u8, 1u8, 1u8);
            lemma_row_ones_3(1u8, 1u8, 0u8);
        },
        Variant::Z => {
            lemma_count_two_rows(seq![1u8, 1u8, 0u8], seq![0u8, 1u8, 1u8]);
            lemma_row_ones_3(1u8, 1u8, 0u8);
            lemma_row_ones_3(0u8, 1u8, 1u8);
        },
        Variant::L => {
            lemma_count_two_rows(seq![1u8, 0u8, 0u8], seq![1u8, 1u8, 1u8]);
            lemma_row_ones_3(1u8, 0u8, 0u8);
            lemma_row_ones_3(1u8, 1u8, 1u8);
        },
        Variant::J => {
            lemma_count_two_rows(seq![0u8, 0u8, 1u8], seq![1u8, 1u8, 1u8]);
            lemma_row_ones_3(0u8, 0u8, 1u8);
            lemma_row_ones_3(1u8, 1u8, 1u8);
        },
        Variant::T => {
            lemma_count_two_rows(seq![0u8, 1u8, 0u8], seq![1u8, 1u8, 1u8]);
            lemma_row_ones_3(0u8, 1u8, 0u8);
            lemma_row_ones_3(1u8, 1u8, 1u8);
        },
    }
}

/// Every catalog layout has one or two rows and two to four columns.
pub proof fn lemma_layout_spec_dims(v: Variant)
    ensures
        1 <= layout_spec(v).len() <= 2,
        2 <= layout_spec(v)[0].len() <= 4,
{
    match v {
        Variant::O => {
            assert(layout_spec(v).len() == 2 && layout_spec(v)[0].len() == 2);
        },
        Variant::I => {
            assert(layout_spec(v).len() == 1 && layout_spec(v)[0].len() == 4);
        },
        Variant::S => {
            assert(layout_spec(v).len() == 2 && layout_spec(v)[0].len() == 3);
        },
        Variant::Z => {
            assert(layout_spec(v).len() == 2 && layout_spec(v)[0].len() == 3);
        },
        Variant::L => {
            assert(layout_spec(v).len() == 2 && layout_spec(v)[0].len() == 3);
        },
        Variant::J => {
            assert(layout_spec(v).len() == 2 && layout_spec(v)[0].len() == 3);
        },
        Variant::T => {
            assert(layout_spec(v).len() == 2 && layout_spec(v)[0].len() == 3);
        },
    }
}

} // verus!
