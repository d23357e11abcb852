//! Static prefix-code description tables: the value ranges encoded by the
//! insert-and-copy and distance prefix codes.

use vstd::prelude::*;

verus! {

/// The range of values belonging to a prefix code: `offset` upward, with
/// `nbits` extra raw bits read from the stream.
#[derive(Debug, Copy, Clone, PartialEq, Eq, Structural)]
pub struct Range {
    pub offset: u16,
    pub nbits: u8,
}

/// One entry of the insert-and-copy command lookup table: how to split a
/// command symbol into insert and copy lengths, and which literal-context
/// slot it selects. A `distance_code` of `false` marks a command that
/// implicitly reuses the most recent distance.
#[derive(Debug, Copy, Clone, PartialEq, Eq, Structural)]
pub struct CmdLutElement {
    pub insert_len_extra_bits: u8,
    pub copy_len_extra_bits: u8,
    pub distance_code: bool,
    pub context: u8,
    pub insert_len_offset: u16,
    pub copy_len_offset: u16,
}

/// The distance prefix-code ranges, in prefix-symbol order.
pub open spec fn spec_prefix_code_ranges() -> Seq<Range> {
    seq![
        Range { offset: 1, nbits: 2 },
        Range { offset: 5, nbits: 2 },
        Range { offset: 9, nbits: 2 },
        Range { offset: 13, nbits: 2 },
        Range { offset: 17, nbits: 3 },
        Range { offset: 25, nbits: 3 },
        Range { offset: 33, nbits: 3 },
        Range { offset: 41, nbits: 3 },
        Range { offset: 49, nbits: 4 },
        Range { offset: 65, nbits: 4 },
        Range { offset: 81, nbits: 4 },
        Range { offset: 97, nbits: 4 },
        Range { offset: 113, nbits: 5 },
        Range { offset: 145, nbits: 5 },
        Range { offset: 177, nbits: 5 },
        Range { offset: 209, nbits: 5 },
        Range { offset: 241, nbits: 6 },
        Range { offset: 305, nbits: 6 },
        Range { offset: 369, nbits: 7 },
        Range { offset: 497, nbits: 8 },
        Range { offset: 753, nbits: 9 },
        Range { offset: 1265, nbits: 10 },
        Range { offset: 2289, nbits: 11 },
        Range { offset: 4337, nbits: 12 },
        Range { offset: 8433, nbits: 13 },
        Range { offset: 16625, nbits: 24 },
    ]
}

/// The distance prefix-code ranges as a vector, in prefix-symbol order.
pub fn prefix_code_ranges() -> (r: Vec<Range>)
    ensures
        r@ == spec_prefix_code_ranges(),
{
    let mut r: Vec<Range> = Vec::new();
    r.push(Range { offset: 1, nbits: 2 });
    r.push(Range { offset: 5, nbits: 2 });
    r.push(Range { offset: 9, nbits: 2 });
    r.push(Range { offset: 13, nbits: 2 });
    r.push(Range { offset: 17, nbits: 3 });
    r.push(Range { offset: 25, nbits: 3 });
    r.push(Range { offset: 33, nbits: 3 });
    r.push(Range { offset: 41, nbits: 3 });
    r.push(Range { offset: 49, nbits: 4 });
    r.push(Range { offset: 65, nbits: 4 });
    r.push(Range { offset: 81, nbits: 4 });
    r.push(Range { offset: 97, nbits: 4 });
    r.push(Range { offset: 113, nbits: 5 });
    r.push(Range { offset: 145, nbits: 5 });
    r.push(Range { offset: 177, nbits: 5 });
    r.push(Range { offset: 209, nbits: 5 });
    r.push(Range { offset: 241, nbits: 6 });
    r.push(Range { offset: 305, nbits: 6 });
    r.push(Range { offset: 369, nbits: 7 });
    r.push(Range { offset: 497, nbits: 8 });
    r.push(Range { offset: 753, nbits: 9 });
    r.push(Range { offset: 1265, nbits: 10 });
    r.push(Range { offset: 2289, nbits: 11 });
    r.push(Range { offset: 4337, nbits: 12 });
    r.push(Range { offset: 8433, nbits: 13 });
    r.push(Range { offset: 16625, nbits: 24 });
    proof {
        assert(r@ =~= spec_prefix_code_ranges());
    }
    r
}

} // verus!
