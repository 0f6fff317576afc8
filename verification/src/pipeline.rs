//! The run of the utility as pure computation: choose the working buffer
//! (seeding an empty input with the default numbers), parse it, sort the
//! values, and render the output bytes. Reading and writing the backing
//! file, and printing, stay with the caller.

use vstd::prelude::*;
use crate::parse::parse_all;
use crate::parse::parse_input;
use crate::parse::lemma_parse_count_le_len;
use crate::render::output_bytes;
use crate::render::render_output;
use crate::sort::bubble_sort;
use crate::sort::comparison_count;
use crate::sort::sorted;

verus! {

/// The text seeded into an empty input: the numbers ten down to one, one
/// per line.
pub open spec fn default_seed() -> Seq<u8> {
    seq![49u8, 48u8, 10u8, 57u8, 10u8, 56u8, 10u8, 55u8, 10u8, 54u8, 10u8, 53u8, 10u8, 52u8, 10u8,
        51u8, 10u8, 50u8, 10u8, 49u8, 10u8]
}

/// Build the default seed text as bytes.
pub fn default_seed_bytes() -> (r: Vec<u8>)
    ensures
        r@ == default_seed(),
{
    let mut out: Vec<u8> = Vec::new();
    out.push(49);
    out.push(48);
    out.push(10);
    out.push(57);
    out.push(10);
    out.push(56);
    out.push(10);
    out.push(55);
    out.push(10);
    out.push(54);
    out.push(10);
    out.push(53);
    out.push(10);
    out.push(52);
    out.push(10);
    out.push(51);
    out.push(10);
    out.push(50);
    out.push(10);
    out.push(49);
    out.push(10);
    proof {
        assert(out@ =~= default_seed());
    }
    out
}

/// Choose the buffer a run works on: an empty input is replaced by the
/// default seed text, and the flag reports the replacement so the caller
/// can append the seed to the backing file.
pub fn effective_input(input: Vec<u8>) -> (r: (Vec<u8>, bool))
    ensures
        input@.len() == 0 ==> r.0@ == default_seed() && r.1,
        input@.len() != 0 ==> r.0@ == input@ && !r.1,
{
    if input.len() == 0 {
        (default_seed_bytes(), true)
    } else {
        (input, false)
    }
}

/// Run the whole computation on an input buffer: parse one integer per
/// non-blank line, sort, and render. Returns the exact output bytes when
/// every non-blank line parses, and `None` (the run aborts with nothing
/// printed) otherwise. The output lists some non-descending rearrangement
/// of the parsed values, then the count line for `n * (n + 1) / 2`
/// comparisons on `n` values.
pub fn process(input: &Vec<u8>) -> (r: Option<Vec<u8>>)
    requires
        input@.len() <= 0xffff_ffff,
    ensures
        (r is Some) == (parse_all(input@) is Some),
        r is Some ==> exists|s: Seq<i32>|
            sorted(s) && s.to_multiset() == parse_all(input@).unwrap().to_multiset() && r.unwrap()@
                == output_bytes(s, comparison_count(parse_all(input@).unwrap().len())),
{
    match parse_input(input) {
        None => None,
        Some(mut values) => {
            proof {
                lemma_parse_count_le_len(input@);
                assert(comparison_count(values@.len()) <= u64::MAX) by (nonlinear_arith)
                    requires
                        values@.len() <= 0xffff_ffff,
                ;
            }
            let ghost parsed = values@;
            let count = bubble_sort(&mut values);
            let out = render_output(&values, count);
            proof {
                assert(sorted(values@) && values@.to_multiset() == parsed.to_multiset() && out@
                    == output_bytes(values@, comparison_count(parsed.len())));
            }
            Some(out)
        },
    }
}

} // verus!
