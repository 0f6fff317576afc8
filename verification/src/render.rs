//! Rendering the sorted values and the comparison count as the exact byte
//! output of the utility: each value on its own line, then a final line of
//! the form `Comparisons made: <count>.`.

use vstd::prelude::*;

verus! {

/// The shortest decimal numeral of `n`: digit bytes, no sign, no leading
/// zero except for `n == 0` itself.
pub open spec fn dec_digits(n: nat) -> Seq<u8>
    decreases n,
{
    if n < 10 {
        seq![(48 + n) as u8]
    } else {
        dec_digits(n / 10) + seq![(48 + n % 10) as u8]
    }
}

/// The decimal rendering of a signed value: a minus sign before the
/// numeral of the magnitude when negative.
pub open spec fn dec_i32(v: i32) -> Seq<u8> {
    if v < 0 {
        seq![45u8] + dec_digits((-(v as int)) as nat)
    } else {
        dec_digits(v as nat)
    }
}

/// The value lines: each element rendered in decimal and terminated by a
/// newline.
pub open spec fn value_lines(values: Seq<i32>) -> Seq<u8>
    decreases values.len(),
{
    if values.len() == 0 {
        Seq::empty()
    } else {
        dec_i32(values[0]) + seq![10u8] + value_lines(values.drop_first())
    }
}

/// The bytes of `Comparisons made: `.
pub open spec fn count_line_prefix() -> Seq<u8> {
    seq![67u8, 111u8, 109u8, 112u8, 97u8, 114u8, 105u8, 115u8, 111u8, 110u8, 115u8, 32u8, 109u8,
        97u8, 100u8, 101u8, 58u8, 32u8]
}

/// The final line: `Comparisons made: <count>.` and a newline.
pub open spec fn count_line(count: nat) -> Seq<u8> {
    count_line_prefix() + dec_digits(count) + seq![46u8, 10u8]
}

/// The whole output: one line per value, then the count line.
pub open spec fn output_bytes(values: Seq<i32>, count: nat) -> Seq<u8> {
    value_lines(values) + count_line(count)
}

/// Append the decimal numeral of `n` to `out`.
fn push_dec_u64(n: u64, out: &mut Vec<u8>)
    ensures
        final(out)@ == old(out)@ + dec_digits(n as nat),
    decreases n,
{
    if n < 10 {
        out.push(48 + n as u8);
        assert(out@ =~= old(out)@ + dec_digits(n as nat));
    } else {
        push_dec_u64(n / 10, out);
        out.push(48 + (n % 10) as u8);
        proof {
            assert(dec_digits(n as nat) == dec_digits((n as nat) / 10) + seq![
                (48 + (n as nat) % 10) as u8,
            ]);
            assert((n / 10) as nat == (n as nat) / 10);
            assert(out@ =~= old(out)@ + dec_digits(n as nat));
        }
    }
}

/// Append the decimal rendering of a signed value to `out`.
fn push_dec_i32(v: i32, out: &mut Vec<u8>)
    ensures
        final(out)@ == old(out)@ + dec_i32(v),
{
    if v < 0 {
        out.push(45);
        let mag = -(v as i64);
        push_dec_u64(mag as u64, out);
        proof {
            assert(mag as nat == (-(v as int)) as nat);
            assert(out@ =~= old(out)@ + dec_i32(v));
        }
    } else {
        push_dec_u64(v as u64, out);
        assert(out@ =~= old(out)@ + dec_i32(v));
    }
}

/// `value_lines` grows by one line when one value is appended.
proof fn lemma_value_lines_push(values: Seq<i32>, v: i32)
    ensures
        value_lines(values.push(v)) == value_lines(values) + dec_i32(v) + seq![10u8],
    decreases values.len(),
{
    assert(values.push(v)[0] == if values.len() == 0 {
        v
    } else {
        values[0]
    });
    if values.len() == 0 {
        assert(values.push(v).drop_first() =~= Seq::<i32>::empty());
        assert(value_lines(values.push(v).drop_first()) == Seq::<u8>::empty());
        assert(value_lines(values.push(v)) =~= value_lines(values) + dec_i32(v) + seq![10u8]);
    } else {
        lemma_value_lines_push(values.drop_first(), v);
        assert(values.push(v).drop_first() =~= values.drop_first().push(v));
        assert(value_lines(values.push(v)) =~= value_lines(values) + dec_i32(v) + seq![10u8]);
    }
}

/// Render the values and the comparison count as the full output of the
/// utility: each value on its own line in order, then the exact line
/// `Comparisons made: <count>.`.
pub fn render_output(values: &Vec<i32>, count: u64) -> (r: Vec<u8>)
    ensures
        r@ == output_bytes(values@, count as nat),
{
    let mut out: Vec<u8> = Vec::new();
    let mut i: usize = 0;
    while i < values.len()
        invariant
            i <= values@.len(),
            out@ == value_lines(values@.take(i as int)),
        decreases values@.len() - i,
    {
        push_dec_i32(values[i], &mut out);
        out.push(10);
        proof {
            lemma_value_lines_push(values@.take(i as int), values@[i as int]);
            assert(values@.take(i as int).push(values@[i as int]) =~= values@.take(i as int + 1));
            assert(out@ =~= value_lines(values@.take(i as int + 1)));
        }
        i = i + 1;
    }
    proof {
        assert(values@.take(values@.len() as int) =~= values@);
    }
    // the count line
    let ghost before = out@;
    out.push(67);
    out.push(111);
    out.push(109);
    out.push(112);
    out.push(97);
    out.push(114);
    out.push(105);
    out.push(115);
    out.push(111);
    out.push(110);
    out.push(115);
    out.push(32);
    out.push(109);
    out.push(97);
    out.push(100);
    out.push(101);
    out.push(58);
    out.push(32);
    proof {
        assert(out@ =~= before + count_line_prefix());
    }
    push_dec_u64(count, &mut out);
    out.push(46);
    out.push(10);
    proof {
        assert(out@ =~= value_lines(values@) + count_line(count as nat));
    }
    out
}

} // verus!
