//! The persistence format of a controller: a canonical JSON text — an array
//! of level objects, each `{"inputs":..,"outputs":..,"biases":..,"weights":..}`
//! with all numbers in fixed-point raw units. The encoder emits exactly this
//! canonical form; the decoder accepts it back and treats anything else as
//! corrupt. Decoding an encoded controller reproduces it value for value.

use vstd::prelude::*;
use crate::fixed::SCALE;
use crate::digits::{
    is_digit, dec_digits, dec_int, digits_value, lemma_dec_digits_shape, lemma_dec_digits_len,
    lemma_value_of_dec_digits, lemma_dec_digits_of_value, pow10, push_dec_u64,
};
use crate::network::{
    Level, NeuralNetwork, level_wf, net_wf, vals_in_unit, level_equiv, LEVEL_NODE_LIM,
};

verus! {

/// The canonical text of one number.
pub open spec fn enc_num(v: i64) -> Seq<u8> {
    dec_int(v as int)
}

/// The canonical text of a non-empty run of numbers, comma-separated.
pub open spec fn enc_nums(s: Seq<i64>) -> Seq<u8>
    decreases s.len(),
{
    if s.len() == 0 {
        Seq::empty()
    } else if s.len() == 1 {
        enc_num(s[0])
    } else {
        enc_num(s[0]) + seq![44u8] + enc_nums(s.skip(1))
    }
}

/// The canonical text of a number array.
pub open spec fn enc_num_list(s: Seq<i64>) -> Seq<u8> {
    seq![91u8] + enc_nums(s) + seq![93u8]
}

/// The views of a list of value vectors.
pub open spec fn row_views(ws: Seq<Vec<i64>>) -> Seq<Seq<i64>> {
    Seq::new(ws.len(), |i: int| ws[i]@)
}

/// The canonical text of a non-empty run of number arrays.
pub open spec fn enc_rows(ws: Seq<Seq<i64>>) -> Seq<u8>
    decreases ws.len(),
{
    if ws.len() == 0 {
        Seq::empty()
    } else if ws.len() == 1 {
        enc_num_list(ws[0])
    } else {
        enc_num_list(ws[0]) + seq![44u8] + enc_rows(ws.skip(1))
    }
}

/// The canonical text of an array of number arrays.
pub open spec fn enc_row_list(ws: Seq<Seq<i64>>) -> Seq<u8> {
    seq![91u8] + enc_rows(ws) + seq![93u8]
}

/// `"inputs":` as bytes.
pub open spec fn key_inputs() -> Seq<u8> {
    seq![34u8, 105u8, 110u8, 112u8, 117u8, 116u8, 115u8, 34u8, 58u8]
}

/// `"outputs":` as bytes.
pub open spec fn key_outputs() -> Seq<u8> {
    seq![34u8, 111u8, 117u8, 116u8, 112u8, 117u8, 116u8, 115u8, 34u8, 58u8]
}

/// `"biases":` as bytes.
pub open spec fn key_biases() -> Seq<u8> {
    seq![34u8, 98u8, 105u8, 97u8, 115u8, 101u8, 115u8, 34u8, 58u8]
}

/// `"weights":` as bytes.
pub open spec fn key_weights() -> Seq<u8> {
    seq![34u8, 119u8, 101u8, 105u8, 103u8, 104u8, 116u8, 115u8, 34u8, 58u8]
}

/// The canonical text of one level object.
#[verifier::opaque]
pub open spec fn enc_level(l: Level) -> Seq<u8> {
    seq![123u8] + key_inputs() + enc_num_list(l.inputs@) + seq![44u8] + key_outputs()
        + enc_num_list(l.outputs@) + seq![44u8] + key_biases() + enc_num_list(l.biases@)
        + seq![44u8] + key_weights() + enc_row_list(row_views(l.weights@)) + seq![125u8]
}

/// The canonical text of a non-empty run of level objects.
pub open spec fn enc_levels(ls: Seq<Level>) -> Seq<u8>
    decreases ls.len(),
{
    if ls.len() == 0 {
        Seq::empty()
    } else if ls.len() == 1 {
        enc_level(ls[0])
    } else {
        enc_level(ls[0]) + seq![44u8] + enc_levels(ls.skip(1))
    }
}

/// The canonical text of a whole controller.
pub open spec fn enc_network(ls: Seq<Level>) -> Seq<u8> {
    seq![91u8] + enc_levels(ls) + seq![93u8]
}

/// Elementwise interchangeability of two level lists.
pub open spec fn levels_equiv(a: Seq<Level>, b: Seq<Level>) -> bool {
    &&& a.len() == b.len()
    &&& forall|i: int| 0 <= i < a.len() ==> level_equiv(#[trigger] a[i], b[i])
}

/// Append the canonical text of one number.
fn push_num(out: &mut Vec<u8>, v: i64)
    requires
        -SCALE <= v <= SCALE,
    ensures
        final(out)@ == old(out)@ + enc_num(v),
{
    if v < 0 {
        out.push(45);
        push_dec_u64(out, (-v) as u64);
        proof {
            assert(out@ =~= old(out)@ + enc_num(v));
        }
    } else {
        push_dec_u64(out, v as u64);
    }
}

/// Append the canonical text of the numbers from index `i` on.
fn push_nums(out: &mut Vec<u8>, s: &Vec<i64>, i: usize)
    requires
        i < s@.len(),
        vals_in_unit(s@),
    ensures
        final(out)@ == old(out)@ + enc_nums(s@.skip(i as int)),
    decreases s@.len() - i,
{
    push_num(out, s[i]);
    proof {
        assert(s@.skip(i as int)[0] == s@[i as int]);
    }
    let n = s.len();
    if i + 1 < n {
        out.push(44);
        push_nums(out, s, i + 1);
        proof {
            assert(s@.skip(i as int).skip(1) =~= s@.skip(i as int + 1));
            assert(out@ =~= old(out)@ + enc_nums(s@.skip(i as int)));
        }
    } else {
        proof {
            assert(s@.skip(i as int).len() == 1);
        }
    }
}

/// Append the canonical text of a number array.
fn push_num_list(out: &mut Vec<u8>, s: &Vec<i64>)
    requires
        vals_in_unit(s@),
    ensures
        final(out)@ == old(out)@ + enc_num_list(s@),
{
    out.push(91);
    if s.len() > 0 {
        push_nums(out, s, 0);
        proof {
            assert(s@.skip(0) =~= s@);
        }
    }
    out.push(93);
    proof {
        assert(out@ =~= old(out)@ + enc_num_list(s@));
    }
}

/// Append the canonical text of the rows from index `i` on.
fn push_rows(out: &mut Vec<u8>, ws: &Vec<Vec<i64>>, i: usize)
    requires
        i < ws@.len(),
        forall|k: int| 0 <= k < ws@.len() ==> vals_in_unit((#[trigger] ws@[k])@),
    ensures
        final(out)@ == old(out)@ + enc_rows(row_views(ws@).skip(i as int)),
    decreases ws@.len() - i,
{
    push_num_list(out, &ws[i]);
    proof {
        assert(row_views(ws@).skip(i as int)[0] == ws@[i as int]@);
    }
    let n = ws.len();
    if i + 1 < n {
        out.push(44);
        push_rows(out, ws, i + 1);
        proof {
            assert(row_views(ws@).skip(i as int).skip(1) =~= row_views(ws@).skip(i as int + 1));
            assert(out@ =~= old(out)@ + enc_rows(row_views(ws@).skip(i as int)));
        }
    } else {
        proof {
            assert(row_views(ws@).skip(i as int).len() == 1);
        }
    }
}

/// Append the canonical text of an array of number arrays.
fn push_row_list(out: &mut Vec<u8>, ws: &Vec<Vec<i64>>)
    requires
        forall|k: int| 0 <= k < ws@.len() ==> vals_in_unit((#[trigger] ws@[k])@),
    ensures
        final(out)@ == old(out)@ + enc_row_list(row_views(ws@)),
{
    out.push(91);
    if ws.len() > 0 {
        push_rows(out, ws, 0);
        proof {
            assert(row_views(ws@).skip(0) =~= row_views(ws@));
        }
    }
    out.push(93);
    proof {
        assert(out@ =~= old(out)@ + enc_row_list(row_views(ws@)));
    }
}

/// Append one of the four fixed keys; `which` selects it.
fn push_key(out: &mut Vec<u8>, which: u8)
    requires
        which < 4,
    ensures
        which == 0 ==> final(out)@ == old(out)@ + key_inputs(),
        which == 1 ==> final(out)@ == old(out)@ + key_outputs(),
        which == 2 ==> final(out)@ == old(out)@ + key_biases(),
        which == 3 ==> final(out)@ == old(out)@ + key_weights(),
{
    out.push(34);
    if which == 0 {
        out.push(105);
        out.push(110);
        out.push(112);
        out.push(117);
        out.push(116);
        out.push(115);
    } else if which == 1 {
        out.push(111);
        out.push(117);
        out.push(116);
        out.push(112);
        out.push(117);
        out.push(116);
        out.push(115);
    } else if which == 2 {
        out.push(98);
        out.push(105);
        out.push(97);
        out.push(115);
        out.push(101);
        out.push(115);
    } else {
        out.push(119);
        out.push(101);
        out.push(105);
        out.push(103);
        out.push(104);
        out.push(116);
        out.push(115);
    }
    out.push(34);
    out.push(58);
    proof {
        if which == 0 {
            assert(out@ =~= old(out)@ + key_inputs());
        } else if which == 1 {
            assert(out@ =~= old(out)@ + key_outputs());
        } else if which == 2 {
            assert(out@ =~= old(out)@ + key_biases());
        } else {
            assert(out@ =~= old(out)@ + key_weights());
        }
    }
}

/// Append the canonical text of one level object.
fn push_level(out: &mut Vec<u8>, l: &Level)
    requires
        level_wf(*l),
    ensures
        final(out)@ == old(out)@ + enc_level(*l),
{
    out.push(123);
    push_key(out, 0);
    push_num_list(out, &l.inputs);
    out.push(44);
    push_key(out, 1);
    push_num_list(out, &l.outputs);
    out.push(44);
    push_key(out, 2);
    push_num_list(out, &l.biases);
    out.push(44);
    push_key(out, 3);
    push_row_list(out, &l.weights);
    out.push(125);
    proof {
        reveal(enc_level);
        assert(out@ =~= old(out)@ + enc_level(*l));
    }
}

/// Append the canonical text of the levels from index `i` on.
fn push_levels(out: &mut Vec<u8>, ls: &Vec<Level>, i: usize)
    requires
        i < ls@.len(),
        forall|k: int| 0 <= k < ls@.len() ==> level_wf(#[trigger] ls@[k]),
    ensures
        final(out)@ == old(out)@ + enc_levels(ls@.skip(i as int)),
    decreases ls@.len() - i,
{
    push_level(out, &ls[i]);
    proof {
        assert(ls@.skip(i as int)[0] == ls@[i as int]);
    }
    let n = ls.len();
    if i + 1 < n {
        out.push(44);
        push_levels(out, ls, i + 1);
        proof {
            assert(ls@.skip(i as int).skip(1) =~= ls@.skip(i as int + 1));
            assert(out@ =~= old(out)@ + enc_levels(ls@.skip(i as int)));
        }
    } else {
        proof {
            assert(ls@.skip(i as int).len() == 1);
        }
    }
}

/// The canonical serialisation of a controller.
pub fn encode_network(n: &NeuralNetwork) -> (r: Vec<u8>)
    requires
        net_wf(*n),
    ensures
        r@ == enc_network(n.levels@),
{
    let mut out: Vec<u8> = Vec::new();
    out.push(91);
    push_levels(&mut out, &n.levels, 0);
    proof {
        assert(n.levels@.skip(0) =~= n.levels@);
    }
    out.push(93);
    proof {
        assert(out@ =~= enc_network(n.levels@));
    }
    out
}

/// The canonical text of `v` sits at `pos`, and the byte after it (if any)
/// is not a digit, so no longer number sits there.
pub open spec fn num_at(bs: Seq<u8>, pos: int, v: i64) -> bool {
    &&& -SCALE <= v <= SCALE
    &&& 0 <= pos
    &&& pos + enc_num(v).len() <= bs.len()
    &&& bs.subrange(pos, pos + enc_num(v).len()) == enc_num(v)
    &&& (pos + enc_num(v).len() == bs.len() || !is_digit(bs[pos + enc_num(v).len()]))
}

/// Where the digit scan must stop when the canonical text of `v` sits at
/// `pos`: exactly at the end of its digits.
proof fn lemma_num_scan_stop(bs: Seq<u8>, pos: int, start: int, p: int, v: i64)
    requires
        num_at(bs, pos, v),
        start == pos + (if v < 0 {
            1int
        } else {
            0int
        }),
        start <= p <= bs.len(),
        forall|k: int| start <= k < p ==> is_digit(#[trigger] bs[k]),
        p - start <= 8,
        p == bs.len() || !is_digit(bs[p]) || p - start == 8,
        p > start,
    ensures
        p == start + dec_digits(crate::fixed::mag(v as int) as nat).len(),
        bs.subrange(start, p) == dec_digits(crate::fixed::mag(v as int) as nat),
{
    let m = crate::fixed::mag(v as int) as nat;
    lemma_dec_digits_shape(m);
    crate::digits::lemma_pow10_vals();
    lemma_dec_digits_len(m, 7);
    let dl = dec_digits(m).len() as int;
    let e = pos + enc_num(v).len();
    if v < 0 {
        assert(enc_num(v) == seq![45u8] + dec_digits(m));
        assert(e == start + dl);
        assert(bs.subrange(start, start + dl) =~= dec_digits(m)) by {
            assert forall|k: int| 0 <= k < dl implies bs.subrange(start, start + dl)[k]
                == dec_digits(m)[k] by {
                assert(bs.subrange(pos, e)[k + 1] == (seq![45u8] + dec_digits(m))[k + 1]);
            };
        };
    } else {
        assert(enc_num(v) == dec_digits(m));
        assert(e == start + dl);
        assert(bs.subrange(start, start + dl) == dec_digits(m));
    }
    assert(forall|k: int|
        0 <= k < dl ==> is_digit(#[trigger] dec_digits(m)[k]));
    if p < start + dl {
        assert(is_digit(bs[p])) by {
            assert(bs.subrange(start, start + dl)[p - start] == dec_digits(m)[p - start]);
        };
        assert(p - start < 8);
        assert(false);
    }
    if p > start + dl {
        if e == bs.len() {
            assert(false);
        } else {
            assert(is_digit(bs[e]));
            assert(false);
        }
    }
}

/// Read one number: an optional minus sign and canonical digits. Rejects
/// leading zeros, more digits than the fixed-point unit needs, values out
/// of the unit range, and a minus sign on zero.
fn parse_num(input: &Vec<u8>, pos: usize) -> (r: Option<(i64, usize)>)
    ensures
        r matches Some(pr) ==> {
            &&& -SCALE <= pr.0 <= SCALE
            &&& pos < pr.1 <= input@.len()
            &&& input@.subrange(pos as int, pr.1 as int) == enc_num(pr.0)
        },
        forall|v: i64|
            #[trigger] num_at(input@, pos as int, v) ==> (r matches Some(pr) && pr.0 == v && pr.1
                == pos + enc_num(v).len()),
{
    let ghost bs = input@;
    let len = input.len();
    let mut p = pos;
    let mut neg = false;
    if p < len && input[p] == 45 {
        neg = true;
        p = p + 1;
    }
    if !(p < len && 48 <= input[p] && input[p] <= 57) {
        proof {
            assert forall|v: i64| num_at(bs, pos as int, v) implies false by {
                let m = crate::fixed::mag(v as int) as nat;
                lemma_dec_digits_shape(m);
                if v < 0 {
                    assert(enc_num(v) == seq![45u8] + dec_digits(m));
                    assert(bs[pos as int] == (seq![45u8] + dec_digits(m))[0]) by {
                        assert(bs.subrange(pos as int, pos + enc_num(v).len())[0] == enc_num(v)[0]);
                    };
                    assert(bs[pos + 1] == dec_digits(m)[0]) by {
                        assert(bs.subrange(pos as int, pos + enc_num(v).len())[1] == enc_num(v)[1]);
                    };
                } else {
                    assert(enc_num(v) == dec_digits(m));
                    assert(bs[pos as int] == dec_digits(m)[0]) by {
                        assert(bs.subrange(pos as int, pos + enc_num(v).len())[0] == enc_num(v)[0]);
                    };
                }
            };
        }
        return None;
    }
    let start = p;
    let mut val: u64 = 0;
    while p < len && 48 <= input[p] && input[p] <= 57 && p - start < 8
        invariant
            0 <= pos <= start <= p <= len,
            len == bs.len(),
            bs == input@,
            start == pos + (if neg {
                1int
            } else {
                0int
            }),
            neg ==> bs[pos as int] == 45,
            p - start <= 8,
            start < len,
            is_digit(bs[start as int]),
            forall|k: int| start <= k < p ==> is_digit(#[trigger] bs[k]),
            val == digits_value(bs.subrange(start as int, p as int)),
            val < pow10((p - start) as nat),
        decreases len - p,
    {
        proof {
            crate::digits::lemma_pow10_vals();
            assert(pow10((p - start) as nat) <= pow10(7)) by {
                lemma_pow10_increases((p - start) as nat, 7);
            };
        }
        let d: u8 = input[p] - 48;
        val = val * 10 + (d as u64);
        p = p + 1;
        proof {
            let sub_new = bs.subrange(start as int, p as int);
            assert(sub_new.drop_last() =~= bs.subrange(start as int, p - 1));
            assert(sub_new.last() == bs[p - 1]);
            assert(pow10(((p - start)) as nat) == 10 * pow10((p - 1 - start) as nat));
        }
    }
    proof {
        if p == start {
            assert(false);
        }
    }
    if p < len && 48 <= input[p] && input[p] <= 57 {
        proof {
            assert forall|v: i64| num_at(bs, pos as int, v) implies false by {
                vacuity_helper(bs, pos as int, start as int, p as int, v, neg);
            };
        }
        return None;
    }
    if input[start] == 48 && p - start > 1 {
        proof {
            assert forall|v: i64| num_at(bs, pos as int, v) implies false by {
                vacuity_helper(bs, pos as int, start as int, p as int, v, neg);
                let m = crate::fixed::mag(v as int) as nat;
                lemma_dec_digits_shape(m);
                assert(dec_digits(m)[0] == bs[start as int]);
            };
        }
        return None;
    }
    if val > 1_000_000 {
        proof {
            assert forall|v: i64| num_at(bs, pos as int, v) implies false by {
                vacuity_helper(bs, pos as int, start as int, p as int, v, neg);
                let m = crate::fixed::mag(v as int) as nat;
                lemma_value_of_dec_digits(m);
            };
        }
        return None;
    }
    if neg && val == 0 {
        proof {
            assert forall|v: i64| num_at(bs, pos as int, v) implies false by {
                vacuity_helper(bs, pos as int, start as int, p as int, v, neg);
                let m = crate::fixed::mag(v as int) as nat;
                lemma_value_of_dec_digits(m);
            };
        }
        return None;
    }
    let v: i64 = if neg {
        -(val as i64)
    } else {
        val as i64
    };
    proof {
        lemma_dec_digits_of_value(bs.subrange(start as int, p as int));
        assert(dec_digits(val as nat) == bs.subrange(start as int, p as int));
        if neg {
            assert(bs.subrange(pos as int, p as int) =~= seq![45u8] + bs.subrange(
                start as int,
                p as int,
            ));
        }
        assert(bs.subrange(pos as int, p as int) == enc_num(v));
        assert forall|v2: i64| num_at(bs, pos as int, v2) implies (v2 == v && pos + enc_num(
            v2,
        ).len() == p) by {
            vacuity_helper(bs, pos as int, start as int, p as int, v2, neg);
            let m2 = crate::fixed::mag(v2 as int) as nat;
            lemma_value_of_dec_digits(m2);
            assert(val == m2);
        };
    }
    Some((v, p))
}

/// Common step of the rejection proofs: under `num_at`, the scan stopped
/// exactly at the end of the canonical digits, whose value the scan read.
proof fn vacuity_helper(bs: Seq<u8>, pos: int, start: int, p: int, v: i64, neg: bool)
    requires
        num_at(bs, pos, v),
        start == pos + (if neg {
            1int
        } else {
            0int
        }),
        neg ==> bs[pos] == 45,
        pos <= start < bs.len(),
        is_digit(bs[start]),
        start < p <= bs.len(),
        forall|k: int| start <= k < p ==> is_digit(#[trigger] bs[k]),
        p - start <= 8,
        p == bs.len() || !is_digit(bs[p]) || p - start == 8,
    ensures
        neg == (v < 0),
        p == start + dec_digits(crate::fixed::mag(v as int) as nat).len(),
        bs.subrange(start, p) == dec_digits(crate::fixed::mag(v as int) as nat),
        p == pos + enc_num(v).len(),
        p == bs.len() || !is_digit(bs[p]),
{
    let m = crate::fixed::mag(v as int) as nat;
    lemma_dec_digits_shape(m);
    if v < 0 {
        assert(enc_num(v) == seq![45u8] + dec_digits(m));
        assert(bs[pos] == enc_num(v)[0]) by {
            assert(bs.subrange(pos, pos + enc_num(v).len())[0] == enc_num(v)[0]);
        };
        assert(bs[pos] == 45);
        assert(neg) by {
            if !neg {
                assert(is_digit(bs[start]));
            }
        };
    } else {
        assert(enc_num(v) == dec_digits(m));
        assert(bs[pos] == enc_num(v)[0]) by {
            assert(bs.subrange(pos, pos + enc_num(v).len())[0] == enc_num(v)[0]);
        };
        assert(is_digit(bs[pos]));
        assert(!neg);
    }
    lemma_num_scan_stop(bs, pos, start, p, v);
    crate::digits::lemma_pow10_vals();
    lemma_dec_digits_len(m, 7);
}

/// A concatenation sitting in a byte string splits into its two parts.
proof fn lemma_split_at(bs: Seq<u8>, pos: int, a: Seq<u8>, b: Seq<u8>)
    requires
        0 <= pos,
        pos + a.len() + b.len() <= bs.len(),
        bs.subrange(pos, pos + a.len() + b.len()) == a + b,
    ensures
        bs.subrange(pos, pos + a.len()) == a,
        bs.subrange(pos + a.len(), pos + a.len() + b.len()) == b,
{
    assert(bs.subrange(pos, pos + a.len()) =~= a) by {
        assert forall|k: int| 0 <= k < a.len() implies bs.subrange(pos, pos + a.len())[k]
            == a[k] by {
            assert(bs.subrange(pos, pos + a.len() + b.len())[k] == (a + b)[k]);
        };
    };
    assert(bs.subrange(pos + a.len(), pos + a.len() + b.len()) =~= b) by {
        assert forall|k: int| 0 <= k < b.len() implies bs.subrange(
            pos + a.len(),
            pos + a.len() + b.len(),
        )[k] == b[k] by {
            assert(bs.subrange(pos, pos + a.len() + b.len())[a.len() + k] == (a + b)[a.len() + k]);
            assert(bs.subrange(pos, pos + a.len() + b.len())[a.len() + k] == bs[pos + a.len() + k]);
            assert(bs.subrange(pos + a.len(), pos + a.len() + b.len())[k] == bs[pos + a.len() + k]);
            assert((a + b)[a.len() + k] == b[k]);
        };
    };
}

/// The canonical text of the non-empty run `s` sits at `pos`, and the byte
/// after it (if any) is neither a comma nor a digit.
pub open spec fn nums_at(bs: Seq<u8>, pos: int, s: Seq<i64>) -> bool {
    &&& s.len() >= 1
    &&& vals_in_unit(s)
    &&& 0 <= pos
    &&& pos + enc_nums(s).len() <= bs.len()
    &&& bs.subrange(pos, pos + enc_nums(s).len()) == enc_nums(s)
    &&& (pos + enc_nums(s).len() == bs.len() || (bs[pos + enc_nums(s).len()] != 44 && !is_digit(
        bs[pos + enc_nums(s).len()],
    )))
}

/// The head of a run is a number at `pos`; a longer run continues with a
/// comma.
proof fn lemma_nums_head(bs: Seq<u8>, pos: int, s: Seq<i64>)
    requires
        nums_at(bs, pos, s),
    ensures
        num_at(bs, pos, s[0]),
        s.len() >= 2 ==> pos + enc_num(s[0]).len() < bs.len() && bs[pos + enc_num(s[0]).len()]
            == 44,
{
    assert(-SCALE <= s[0] <= SCALE);
    if s.len() == 1 {
        assert(enc_nums(s) == enc_num(s[0]));
    } else {
        assert(enc_nums(s) == enc_num(s[0]) + seq![44u8] + enc_nums(s.skip(1)));
        let rest = seq![44u8] + enc_nums(s.skip(1));
        assert(enc_nums(s) == enc_num(s[0]) + rest) by {
            assert(enc_num(s[0]) + seq![44u8] + enc_nums(s.skip(1)) =~= enc_num(s[0]) + rest);
        };
        lemma_split_at(bs, pos, enc_num(s[0]), rest);
        assert(bs[pos + enc_num(s[0]).len()] == 44) by {
            assert(bs.subrange(
                pos + enc_num(s[0]).len(),
                pos + enc_num(s[0]).len() + rest.len(),
            )[0] == rest[0]);
        };
    }
}

/// Dropping the head number and its comma leaves the rest of the run.
proof fn lemma_nums_tail(bs: Seq<u8>, pos: int, s: Seq<i64>)
    requires
        nums_at(bs, pos, s),
        s.len() >= 2,
    ensures
        nums_at(bs, pos + enc_num(s[0]).len() + 1, s.skip(1)),
{
    let head = enc_num(s[0]) + seq![44u8];
    let tail = enc_nums(s.skip(1));
    assert(enc_nums(s) == head + tail) by {
        assert(enc_num(s[0]) + seq![44u8] + enc_nums(s.skip(1)) =~= head + tail);
    };
    lemma_split_at(bs, pos, head, tail);
    assert(vals_in_unit(s.skip(1))) by {
        assert(forall|k: int|
            0 <= k < s.skip(1).len() ==> #[trigger] s.skip(1)[k] == s[k + 1]);
    };
    assert(s.skip(1).len() >= 1);
}

/// Read a non-empty comma-separated run of numbers.
fn parse_nums(input: &Vec<u8>, pos: usize) -> (r: Option<(Vec<i64>, usize)>)
    requires
        pos <= input@.len(),
    ensures
        r matches Some(pr) ==> {
            &&& pr.0@.len() >= 1
            &&& vals_in_unit(pr.0@)
            &&& pos < pr.1 <= input@.len()
            &&& input@.subrange(pos as int, pr.1 as int) == enc_nums(pr.0@)
        },
        forall|s: Seq<i64>|
            #[trigger] nums_at(input@, pos as int, s) ==> (r matches Some(pr) && pr.0@ == s
                && pr.1 == pos + enc_nums(s).len()),
    decreases input@.len() - pos,
{
    let ghost bs = input@;
    let r0 = parse_num(input, pos);
    match r0 {
        None => {
            proof {
                assert forall|s: Seq<i64>| nums_at(bs, pos as int, s) implies false by {
                    lemma_nums_head(bs, pos as int, s);
                };
            }
            None
        },
        Some((v0, p1)) => {
            let len = input.len();
            if p1 < len && input[p1] == 44 {
                let r1 = parse_nums(input, p1 + 1);
                match r1 {
                    None => {
                        proof {
                            assert forall|s: Seq<i64>| nums_at(bs, pos as int, s) implies
                            false by {
                                lemma_nums_head(bs, pos as int, s);
                                if s.len() >= 2 {
                                    lemma_nums_tail(bs, pos as int, s);
                                }
                            };
                        }
                        None
                    },
                    Some((tail, p2)) => {
                        let mut vs = tail;
                        vs.insert(0, v0);
                        proof {
                            assert(vs@ =~= seq![v0] + tail@);
                            assert(vs@[0] == v0 && vs@.skip(1) =~= tail@);
                            assert(vs@.len() >= 2);
                            assert(enc_nums(vs@) == enc_num(v0) + seq![44u8] + enc_nums(tail@));
                            assert(bs.subrange(pos as int, p2 as int) =~= enc_num(v0) + seq![44u8]
                                + enc_nums(tail@)) by {
                                assert(bs.subrange(pos as int, p1 as int) == enc_num(v0));
                                assert(bs.subrange(p1 + 1, p2 as int) == enc_nums(tail@));
                                assert forall|k: int| 0 <= k < p2 - pos implies bs.subrange(
                                    pos as int,
                                    p2 as int,
                                )[k] == (enc_num(v0) + seq![44u8] + enc_nums(tail@))[k] by {
                                    if k < p1 - pos {
                                        assert(bs.subrange(pos as int, p1 as int)[k] == enc_num(
                                            v0,
                                        )[k]);
                                    } else if k == p1 - pos {
                                    } else {
                                        assert(bs.subrange(p1 + 1, p2 as int)[k - (p1 + 1 - pos)]
                                            == enc_nums(tail@)[k - (p1 + 1 - pos)]);
                                    }
                                };
                            };
                            assert(vals_in_unit(vs@)) by {
                                assert(forall|k: int|
                                    1 <= k < vs@.len() ==> #[trigger] vs@[k] == tail@[k - 1]);
                            };
                            assert forall|s: Seq<i64>| nums_at(bs, pos as int, s) implies (vs@
                                == s && p2 == pos + enc_nums(s).len()) by {
                                lemma_nums_head(bs, pos as int, s);
                                if s.len() == 1 {
                                    assert(bs[p1 as int] != 44);
                                    assert(false);
                                } else {
                                    lemma_nums_tail(bs, pos as int, s);
                                    assert(tail@ == s.skip(1));
                                    assert(vs@ =~= s) by {
                                        assert(s == seq![s[0]] + s.skip(1));
                                    };
                                    assert(enc_nums(s).len() == enc_num(s[0]).len() + 1 + enc_nums(
                                        s.skip(1),
                                    ).len());
                                }
                            };
                        }
                        Some((vs, p2))
                    },
                }
            } else {
                let mut vs: Vec<i64> = Vec::new();
                vs.push(v0);
                proof {
                    assert(vs@ =~= seq![v0]);
                    assert(enc_nums(vs@) == enc_num(v0));
                    assert forall|s: Seq<i64>| nums_at(bs, pos as int, s) implies (vs@ == s && p1
                        == pos + enc_nums(s).len()) by {
                        lemma_nums_head(bs, pos as int, s);
                        if s.len() >= 2 {
                            assert(bs[pos + enc_num(s[0]).len()] == 44);
                            assert(false);
                        } else {
                            assert(enc_nums(s) == enc_num(s[0]));
                            assert(vs@ =~= s);
                        }
                    };
                }
                Some((vs, p1))
            }
        },
    }
}

/// The canonical text of the number array `s` sits at `pos`.
pub open spec fn num_list_at(bs: Seq<u8>, pos: int, s: Seq<i64>) -> bool {
    &&& vals_in_unit(s)
    &&& 0 <= pos
    &&& pos + enc_num_list(s).len() <= bs.len()
    &&& bs.subrange(pos, pos + enc_num_list(s).len()) == enc_num_list(s)
}

/// A non-empty array's run of numbers sits just inside its brackets.
proof fn lemma_num_list_inner(bs: Seq<u8>, pos: int, s: Seq<i64>)
    requires
        num_list_at(bs, pos, s),
        s.len() >= 1,
    ensures
        bs[pos] == 91,
        nums_at(bs, pos + 1, s),
        bs[pos + 1 + enc_nums(s).len()] == 93,
{
    let inner = enc_nums(s);
    assert(enc_num_list(s) == seq![91u8] + (inner + seq![93u8])) by {
        assert(seq![91u8] + inner + seq![93u8] =~= seq![91u8] + (inner + seq![93u8]));
    };
    lemma_split_at(bs, pos, seq![91u8], inner + seq![93u8]);
    assert(bs[pos] == 91) by {
        assert(bs.subrange(pos, pos + 1)[0] == seq![91u8][0]);
    };
    lemma_split_at(bs, pos + 1, inner, seq![93u8]);
    assert(bs[pos + 1 + inner.len()] == 93) by {
        assert(bs.subrange(pos + 1 + inner.len(), pos + 1 + inner.len() + 1)[0] == seq![93u8][0]);
    };
}

/// Read a number array: `[` then an optional run of numbers, then `]`.
fn parse_num_list(input: &Vec<u8>, pos: usize) -> (r: Option<(Vec<i64>, usize)>)
    requires
        pos <= input@.len(),
    ensures
        r matches Some(pr) ==> {
            &&& vals_in_unit(pr.0@)
            &&& pos < pr.1 <= input@.len()
            &&& input@.subrange(pos as int, pr.1 as int) == enc_num_list(pr.0@)
        },
        forall|s: Seq<i64>|
            #[trigger] num_list_at(input@, pos as int, s) ==> (r matches Some(pr) && pr.0@ == s
                && pr.1 == pos + enc_num_list(s).len()),
    decreases input@.len() - pos,
{
    let ghost bs = input@;
    let len = input.len();
    if !(pos < len && input[pos] == 91) {
        proof {
            assert forall|s: Seq<i64>| num_list_at(bs, pos as int, s) implies false by {
                assert(bs[pos as int] == 91) by {
                    assert(bs.subrange(pos as int, pos + enc_num_list(s).len())[0] == enc_num_list(
                        s,
                    )[0]);
                    assert(enc_num_list(s)[0] == 91);
                };
            };
        }
        return None;
    }
    if pos + 1 < len && input[pos + 1] == 93 {
        let vs: Vec<i64> = Vec::new();
        proof {
            assert(enc_nums(vs@) == Seq::<u8>::empty());
            assert(bs.subrange(pos as int, pos + 2) =~= enc_num_list(vs@));
            assert forall|s: Seq<i64>| num_list_at(bs, pos as int, s) implies (vs@ == s && pos + 2
                == pos + enc_num_list(s).len()) by {
                if s.len() >= 1 {
                    lemma_num_list_inner(bs, pos as int, s);
                    lemma_nums_head(bs, pos + 1, s);
                    let m = crate::fixed::mag(s[0] as int) as nat;
                    lemma_dec_digits_shape(m);
                    if s[0] < 0 {
                        assert(bs[pos + 1] == 45) by {
                            assert(bs.subrange(pos + 1, pos + 1 + enc_num(s[0]).len())[0]
                                == enc_num(s[0])[0]);
                        };
                    } else {
                        assert(is_digit(bs[pos + 1])) by {
                            assert(bs.subrange(pos + 1, pos + 1 + enc_num(s[0]).len())[0]
                                == enc_num(s[0])[0]);
                        };
                    }
                    assert(false);
                }
                assert(s =~= vs@);
            };
        }
        return Some((vs, pos + 2));
    }
    let r1 = parse_nums(input, pos + 1);
    match r1 {
        None => {
            proof {
                assert forall|s: Seq<i64>| num_list_at(bs, pos as int, s) implies false by {
                    if s.len() == 0 {
                        assert(enc_nums(s) == Seq::<u8>::empty());
                        assert(bs[pos + 1] == 93) by {
                            assert(bs.subrange(pos as int, pos + 2)[1] == enc_num_list(s)[1]);
                        };
                        assert(false);
                    } else {
                        lemma_num_list_inner(bs, pos as int, s);
                    }
                };
            }
            None
        },
        Some((vs, p2)) => {
            if p2 < len && input[p2] == 93 {
                proof {
                    assert(bs.subrange(pos as int, p2 + 1) =~= enc_num_list(vs@)) by {
                        assert(bs.subrange(pos + 1, p2 as int) == enc_nums(vs@));
                        assert forall|k: int| 0 <= k < p2 + 1 - pos implies bs.subrange(
                            pos as int,
                            p2 + 1,
                        )[k] == enc_num_list(vs@)[k] by {
                            if k == 0 {
                            } else if k < p2 - pos {
                                assert(bs.subrange(pos + 1, p2 as int)[k - 1] == enc_nums(
                                    vs@,
                                )[k - 1]);
                            } else {
                            }
                        };
                    };
                    assert forall|s: Seq<i64>| num_list_at(bs, pos as int, s) implies (vs@ == s
                        && p2 + 1 == pos + enc_num_list(s).len()) by {
                        if s.len() == 0 {
                            assert(enc_nums(s) == Seq::<u8>::empty());
                            assert(bs[pos + 1] == 93) by {
                                assert(bs.subrange(pos as int, pos + 2)[1] == enc_num_list(s)[1]);
                            };
                            assert(false);
                        } else {
                            lemma_num_list_inner(bs, pos as int, s);
                        }
                    };
                }
                Some((vs, p2 + 1))
            } else {
                proof {
                    assert forall|s: Seq<i64>| num_list_at(bs, pos as int, s) implies false by {
                        if s.len() == 0 {
                            assert(enc_nums(s) == Seq::<u8>::empty());
                            assert(bs[pos + 1] == 93) by {
                                assert(bs.subrange(pos as int, pos + 2)[1] == enc_num_list(s)[1]);
                            };
                            assert(false);
                        } else {
                            lemma_num_list_inner(bs, pos as int, s);
                        }
                    };
                }
                None
            }
        },
    }
}

/// Two adjacent matched subranges join into one.
proof fn lemma_join(bs: Seq<u8>, pos: int, mid: int, end: int, a: Seq<u8>, b: Seq<u8>)
    requires
        0 <= pos <= mid <= end <= bs.len(),
        bs.subrange(pos, mid) == a,
        bs.subrange(mid, end) == b,
    ensures
        bs.subrange(pos, end) == a + b,
{
    assert(bs.subrange(pos, end) =~= a + b) by {
        assert forall|k: int| 0 <= k < end - pos implies bs.subrange(pos, end)[k] == (a + b)[k] by {
            if k < mid - pos {
                assert(bs.subrange(pos, mid)[k] == a[k]);
            } else {
                assert(bs.subrange(mid, end)[k - (mid - pos)] == b[k - (mid - pos)]);
            }
        };
    };
}

/// The canonical text of the non-empty run of rows `ws` sits at `pos`, and
/// the byte after it (if any) is not a comma.
pub open spec fn rows_at(bs: Seq<u8>, pos: int, ws: Seq<Seq<i64>>) -> bool {
    &&& ws.len() >= 1
    &&& forall|i: int| 0 <= i < ws.len() ==> vals_in_unit(#[trigger] ws[i])
    &&& 0 <= pos
    &&& pos + enc_rows(ws).len() <= bs.len()
    &&& bs.subrange(pos, pos + enc_rows(ws).len()) == enc_rows(ws)
    &&& (pos + enc_rows(ws).len() == bs.len() || bs[pos + enc_rows(ws).len()] != 44)
}

/// The head of a run of rows is an array at `pos`; a longer run continues
/// with a comma.
proof fn lemma_rows_head(bs: Seq<u8>, pos: int, ws: Seq<Seq<i64>>)
    requires
        rows_at(bs, pos, ws),
    ensures
        num_list_at(bs, pos, ws[0]),
        ws.len() >= 2 ==> pos + enc_num_list(ws[0]).len() < bs.len() && bs[pos + enc_num_list(
            ws[0],
        ).len()] == 44,
{
    if ws.len() == 1 {
        assert(enc_rows(ws) == enc_num_list(ws[0]));
    } else {
        let rest = seq![44u8] + enc_rows(ws.skip(1));
        assert(enc_rows(ws) == enc_num_list(ws[0]) + rest) by {
            assert(enc_num_list(ws[0]) + seq![44u8] + enc_rows(ws.skip(1)) =~= enc_num_list(ws[0])
                + rest);
        };
        lemma_split_at(bs, pos, enc_num_list(ws[0]), rest);
        assert(bs[pos + enc_num_list(ws[0]).len()] == 44) by {
            assert(bs.subrange(
                pos + enc_num_list(ws[0]).len(),
                pos + enc_num_list(ws[0]).len() + rest.len(),
            )[0] == rest[0]);
        };
    }
}

/// Dropping the head row and its comma leaves the rest of the run.
proof fn lemma_rows_tail(bs: Seq<u8>, pos: int, ws: Seq<Seq<i64>>)
    requires
        rows_at(bs, pos, ws),
        ws.len() >= 2,
    ensures
        rows_at(bs, pos + enc_num_list(ws[0]).len() + 1, ws.skip(1)),
{
    let head = enc_num_list(ws[0]) + seq![44u8];
    let tail = enc_rows(ws.skip(1));
    assert(enc_rows(ws) == head + tail) by {
        assert(enc_num_list(ws[0]) + seq![44u8] + enc_rows(ws.skip(1)) =~= head + tail);
    };
    lemma_split_at(bs, pos, head, tail);
    assert(forall|i: int|
        0 <= i < ws.skip(1).len() ==> #[trigger] ws.skip(1)[i] == ws[i + 1]);
}

/// Read a non-empty comma-separated run of number arrays.
fn parse_rows(input: &Vec<u8>, pos: usize) -> (r: Option<(Vec<Vec<i64>>, usize)>)
    requires
        pos <= input@.len(),
    ensures
        r matches Some(pr) ==> {
            &&& pr.0@.len() >= 1
            &&& forall|i: int| 0 <= i < pr.0@.len() ==> vals_in_unit((#[trigger] pr.0@[i])@)
            &&& pos < pr.1 <= input@.len()
            &&& input@.subrange(pos as int, pr.1 as int) == enc_rows(row_views(pr.0@))
        },
        forall|ws: Seq<Seq<i64>>|
            #[trigger] rows_at(input@, pos as int, ws) ==> (r matches Some(pr) && row_views(pr.0@)
                == ws && pr.1 == pos + enc_rows(ws).len()),
    decreases input@.len() - pos,
{
    let ghost bs = input@;
    let r0 = parse_num_list(input, pos);
    match r0 {
        None => {
            proof {
                assert forall|ws: Seq<Seq<i64>>| rows_at(bs, pos as int, ws) implies false by {
                    lemma_rows_head(bs, pos as int, ws);
                };
            }
            None
        },
        Some((row0, p1)) => {
            let len = input.len();
            if p1 < len && input[p1] == 44 {
                let r1 = parse_rows(input, p1 + 1);
                match r1 {
                    None => {
                        proof {
                            assert forall|ws: Seq<Seq<i64>>| rows_at(bs, pos as int, ws) implies
                            false by {
                                lemma_rows_head(bs, pos as int, ws);
                                if ws.len() >= 2 {
                                    lemma_rows_tail(bs, pos as int, ws);
                                }
                            };
                        }
                        None
                    },
                    Some((tail, p2)) => {
                        let ghost row0v = row0@;
                        let mut vs = tail;
                        vs.insert(0, row0);
                        proof {
                            assert(row_views(vs@) =~= seq![row0v] + row_views(tail@)) by {
                                assert(forall|k: int|
                                    1 <= k < vs@.len() ==> #[trigger] vs@[k] == tail@[k - 1]);
                            };
                            let wsv = row_views(vs@);
                            assert(wsv[0] == row0v && wsv.skip(1) =~= row_views(tail@));
                            assert(wsv.len() >= 2);
                            assert(enc_rows(wsv) == enc_num_list(row0v) + seq![44u8] + enc_rows(
                                row_views(tail@),
                            ));
                            assert(bs.subrange(p1 as int, p1 + 1) =~= seq![44u8]);
                            lemma_join(
                                bs,
                                pos as int,
                                p1 as int,
                                p1 + 1,
                                enc_num_list(row0v),
                                seq![44u8],
                            );
                            lemma_join(
                                bs,
                                pos as int,
                                p1 + 1,
                                p2 as int,
                                enc_num_list(row0v) + seq![44u8],
                                enc_rows(row_views(tail@)),
                            );
                            assert(bs.subrange(pos as int, p2 as int) == enc_rows(wsv));
                            assert forall|ws: Seq<Seq<i64>>| rows_at(bs, pos as int, ws) implies (
                            row_views(vs@) == ws && p2 == pos + enc_rows(ws).len()) by {
                                lemma_rows_head(bs, pos as int, ws);
                                if ws.len() == 1 {
                                    assert(bs[p1 as int] != 44);
                                    assert(false);
                                } else {
                                    lemma_rows_tail(bs, pos as int, ws);
                                    assert(row_views(tail@) == ws.skip(1));
                                    assert(row_views(vs@) =~= ws) by {
                                        assert(ws == seq![ws[0]] + ws.skip(1));
                                    };
                                    assert(enc_rows(ws).len() == enc_num_list(ws[0]).len() + 1
                                        + enc_rows(ws.skip(1)).len());
                                }
                            };
                        }
                        Some((vs, p2))
                    },
                }
            } else {
                let ghost row0v = row0@;
                let mut vs: Vec<Vec<i64>> = Vec::new();
                vs.push(row0);
                proof {
                    assert(row_views(vs@) =~= seq![row0v]);
                    assert(enc_rows(row_views(vs@)) == enc_num_list(row0v));
                    assert forall|ws: Seq<Seq<i64>>| rows_at(bs, pos as int, ws) implies (
                    row_views(vs@) == ws && p1 == pos + enc_rows(ws).len()) by {
                        lemma_rows_head(bs, pos as int, ws);
                        if ws.len() >= 2 {
                            assert(bs[pos + enc_num_list(ws[0]).len()] == 44);
                            assert(false);
                        } else {
                            assert(enc_rows(ws) == enc_num_list(ws[0]));
                            assert(row_views(vs@) =~= ws);
                        }
                    };
                }
                Some((vs, p1))
            }
        },
    }
}

/// The canonical text of the array of rows `ws` sits at `pos`.
pub open spec fn row_list_at(bs: Seq<u8>, pos: int, ws: Seq<Seq<i64>>) -> bool {
    &&& forall|i: int| 0 <= i < ws.len() ==> vals_in_unit(#[trigger] ws[i])
    &&& 0 <= pos
    &&& pos + enc_row_list(ws).len() <= bs.len()
    &&& bs.subrange(pos, pos + enc_row_list(ws).len()) == enc_row_list(ws)
}

/// A non-empty row array's run of rows sits just inside its brackets.
proof fn lemma_row_list_inner(bs: Seq<u8>, pos: int, ws: Seq<Seq<i64>>)
    requires
        row_list_at(bs, pos, ws),
        ws.len() >= 1,
    ensures
        bs[pos] == 91,
        rows_at(bs, pos + 1, ws),
        bs[pos + 1 + enc_rows(ws).len()] == 93,
{
    let inner = enc_rows(ws);
    assert(enc_row_list(ws) == seq![91u8] + (inner + seq![93u8])) by {
        assert(seq![91u8] + inner + seq![93u8] =~= seq![91u8] + (inner + seq![93u8]));
    };
    lemma_split_at(bs, pos, seq![91u8], inner + seq![93u8]);
    assert(bs[pos] == 91) by {
        assert(bs.subrange(pos, pos + 1)[0] == seq![91u8][0]);
    };
    lemma_split_at(bs, pos + 1, inner, seq![93u8]);
    assert(bs[pos + 1 + inner.len()] == 93) by {
        assert(bs.subrange(pos + 1 + inner.len(), pos + 1 + inner.len() + 1)[0] == seq![93u8][0]);
    };
}

/// Read an array of number arrays.
fn parse_row_list(input: &Vec<u8>, pos: usize) -> (r: Option<(Vec<Vec<i64>>, usize)>)
    requires
        pos <= input@.len(),
    ensures
        r matches Some(pr) ==> {
            &&& forall|i: int| 0 <= i < pr.0@.len() ==> vals_in_unit((#[trigger] pr.0@[i])@)
            &&& pos < pr.1 <= input@.len()
            &&& input@.subrange(pos as int, pr.1 as int) == enc_row_list(row_views(pr.0@))
        },
        forall|ws: Seq<Seq<i64>>|
            #[trigger] row_list_at(input@, pos as int, ws) ==> (r matches Some(pr) && row_views(
                pr.0@,
            ) == ws && pr.1 == pos + enc_row_list(ws).len()),
    decreases input@.len() - pos,
{
    let ghost bs = input@;
    let len = input.len();
    if !(pos < len && input[pos] == 91) {
        proof {
            assert forall|ws: Seq<Seq<i64>>| row_list_at(bs, pos as int, ws) implies false by {
                assert(bs[pos as int] == 91) by {
                    assert(bs.subrange(pos as int, pos + enc_row_list(ws).len())[0] == enc_row_list(
                        ws,
                    )[0]);
                    assert(enc_row_list(ws)[0] == 91);
                };
            };
        }
        return None;
    }
    if pos + 1 < len && input[pos + 1] == 93 {
        let vs: Vec<Vec<i64>> = Vec::new();
        proof {
            assert(row_views(vs@) =~= Seq::<Seq<i64>>::empty());
            assert(enc_rows(row_views(vs@)) == Seq::<u8>::empty());
            assert(bs.subrange(pos as int, pos + 2) =~= enc_row_list(row_views(vs@)));
            assert forall|ws: Seq<Seq<i64>>| row_list_at(bs, pos as int, ws) implies (row_views(
                vs@,
            ) == ws && pos + 2 == pos + enc_row_list(ws).len()) by {
                if ws.len() >= 1 {
                    lemma_row_list_inner(bs, pos as int, ws);
                    lemma_rows_head(bs, pos + 1, ws);
                    assert(bs[pos + 1] == 91) by {
                        assert(bs.subrange(pos + 1, pos + 1 + enc_num_list(ws[0]).len())[0]
                            == enc_num_list(ws[0])[0]);
                    };
                    assert(false);
                }
                assert(ws =~= row_views(vs@));
            };
        }
        return Some((vs, pos + 2));
    }
    let r1 = parse_rows(input, pos + 1);
    match r1 {
        None => {
            proof {
                assert forall|ws: Seq<Seq<i64>>| row_list_at(bs, pos as int, ws) implies false by {
                    if ws.len() == 0 {
                        assert(enc_rows(ws) == Seq::<u8>::empty());
                        assert(bs[pos + 1] == 93) by {
                            assert(bs.subrange(pos as int, pos + 2)[1] == enc_row_list(ws)[1]);
                        };
                        assert(false);
                    } else {
                        lemma_row_list_inner(bs, pos as int, ws);
                    }
                };
            }
            None
        },
        Some((vs, p2)) => {
            if p2 < len && input[p2] == 93 {
                proof {
                    assert(bs.subrange(pos as int, pos + 1) =~= seq![91u8]);
                    lemma_join(
                        bs,
                        pos as int,
                        pos + 1,
                        p2 as int,
                        seq![91u8],
                        enc_rows(row_views(vs@)),
                    );
                    assert(bs.subrange(p2 as int, p2 + 1) =~= seq![93u8]);
                    lemma_join(
                        bs,
                        pos as int,
                        p2 as int,
                        p2 + 1,
                        seq![91u8] + enc_rows(row_views(vs@)),
                        seq![93u8],
                    );
                    assert(bs.subrange(pos as int, p2 + 1) == enc_row_list(row_views(vs@)));
                    assert forall|ws: Seq<Seq<i64>>| row_list_at(bs, pos as int, ws) implies (
                    row_views(vs@) == ws && p2 + 1 == pos + enc_row_list(ws).len()) by {
                        if ws.len() == 0 {
                            assert(enc_rows(ws) == Seq::<u8>::empty());
                            assert(bs[pos + 1] == 93) by {
                                assert(bs.subrange(pos as int, pos + 2)[1] == enc_row_list(ws)[1]);
                            };
                            assert(false);
                        } else {
                            lemma_row_list_inner(bs, pos as int, ws);
                        }
                    };
                }
                Some((vs, p2 + 1))
            } else {
                proof {
                    assert forall|ws: Seq<Seq<i64>>| row_list_at(bs, pos as int, ws) implies
                    false by {
                        if ws.len() == 0 {
                            assert(enc_rows(ws) == Seq::<u8>::empty());
                            assert(bs[pos + 1] == 93) by {
                                assert(bs.subrange(pos as int, pos + 2)[1] == enc_row_list(ws)[1]);
                            };
                            assert(false);
                        } else {
                            lemma_row_list_inner(bs, pos as int, ws);
                        }
                    };
                }
                None
            }
        },
    }
}

/// One byte, checked.
fn expect_byte(input: &Vec<u8>, pos: usize, b: u8) -> (r: Option<usize>)
    ensures
        (r is Some) == (pos < input@.len() && input@[pos as int] == b),
        r matches Some(p) ==> p == pos + 1,
{
    if pos < input.len() {
        if input[pos] == b {
            Some(pos + 1)
        } else {
            None
        }
    } else {
        None
    }
}

/// The bytes of key number `which`.
pub open spec fn key_spec(which: u8) -> Seq<u8> {
    if which == 0 {
        key_inputs()
    } else if which == 1 {
        key_outputs()
    } else if which == 2 {
        key_biases()
    } else {
        key_weights()
    }
}

/// A fixed key, checked byte for byte.
fn expect_key(input: &Vec<u8>, pos: usize, which: u8) -> (r: Option<usize>)
    requires
        which < 4,
    ensures
        (r is Some) == (pos + key_spec(which).len() <= input@.len() && input@.subrange(
            pos as int,
            pos + key_spec(which).len(),
        ) == key_spec(which)),
        r matches Some(p) ==> p == pos + key_spec(which).len(),
{
    let mut kv: Vec<u8> = Vec::new();
    push_key(&mut kv, which);
    proof {
        assert(kv@ == key_spec(which));
    }
    let klen = kv.len();
    let len = input.len();
    if pos > len || len - pos < klen {
        return None;
    }
    let mut i: usize = 0;
    while i < klen
        invariant
            0 <= i <= klen,
            klen == kv@.len(),
            kv@ == key_spec(which),
            pos + klen <= len,
            len == input@.len(),
            forall|k: int| 0 <= k < i ==> input@[pos + k] == kv@[k],
        decreases klen - i,
    {
        if input[pos + i] != kv[i] {
            proof {
                assert(input@.subrange(pos as int, pos + klen)[i as int] != key_spec(
                    which,
                )[i as int]);
            }
            return None;
        }
        i += 1;
    }
    proof {
        assert(input@.subrange(pos as int, pos + klen) =~= kv@);
    }
    Some(pos + klen)
}

/// The canonical text of the level `lv` sits at `pos`.
pub open spec fn level_at(bs: Seq<u8>, pos: int, lv: Level) -> bool {
    &&& level_wf(lv)
    &&& 0 <= pos
    &&& pos + enc_level(lv).len() <= bs.len()
    &&& bs.subrange(pos, pos + enc_level(lv).len()) == enc_level(lv)
}

/// Where each piece of a level object sits.
proof fn lemma_level_parts(bs: Seq<u8>, pos: int, lv: Level)
    requires
        level_at(bs, pos, lv),
    ensures
        ({
            let li = enc_num_list(lv.inputs@).len() as int;
            let lo = enc_num_list(lv.outputs@).len() as int;
            let lb = enc_num_list(lv.biases@).len() as int;
            let lw = enc_row_list(row_views(lv.weights@)).len() as int;
            &&& enc_level(lv).len() == 43 + li + lo + lb + lw
            &&& bs[pos] == 123
            &&& bs.subrange(pos + 1, pos + 10) == key_inputs()
            &&& num_list_at(bs, pos + 10, lv.inputs@)
            &&& bs[pos + 10 + li] == 44
            &&& bs.subrange(pos + 11 + li, pos + 21 + li) == key_outputs()
            &&& num_list_at(bs, pos + 21 + li, lv.outputs@)
            &&& bs[pos + 21 + li + lo] == 44
            &&& bs.subrange(pos + 22 + li + lo, pos + 31 + li + lo) == key_biases()
            &&& num_list_at(bs, pos + 31 + li + lo, lv.biases@)
            &&& bs[pos + 31 + li + lo + lb] == 44
            &&& bs.subrange(pos + 32 + li + lo + lb, pos + 42 + li + lo + lb) == key_weights()
            &&& row_list_at(bs, pos + 42 + li + lo + lb, row_views(lv.weights@))
            &&& bs[pos + 42 + li + lo + lb + lw] == 125
        }),
{
    reveal(enc_level);
    let li = enc_num_list(lv.inputs@).len() as int;
    let lo = enc_num_list(lv.outputs@).len() as int;
    let lb = enc_num_list(lv.biases@).len() as int;
    let lw = enc_row_list(row_views(lv.weights@)).len() as int;
    let f12 = seq![123u8] + key_inputs() + enc_num_list(lv.inputs@) + seq![44u8] + key_outputs()
        + enc_num_list(lv.outputs@) + seq![44u8] + key_biases() + enc_num_list(lv.biases@)
        + seq![44u8] + key_weights() + enc_row_list(row_views(lv.weights@));
    lemma_split_at(bs, pos, f12, seq![125u8]);
    let f11 = seq![123u8] + key_inputs() + enc_num_list(lv.inputs@) + seq![44u8] + key_outputs()
        + enc_num_list(lv.outputs@) + seq![44u8] + key_biases() + enc_num_list(lv.biases@)
        + seq![44u8] + key_weights();
    lemma_split_at(bs, pos, f11, enc_row_list(row_views(lv.weights@)));
    let f10 = seq![123u8] + key_inputs() + enc_num_list(lv.inputs@) + seq![44u8] + key_outputs()
        + enc_num_list(lv.outputs@) + seq![44u8] + key_biases() + enc_num_list(lv.biases@)
        + seq![44u8];
    lemma_split_at(bs, pos, f10, key_weights());
    let f9 = seq![123u8] + key_inputs() + enc_num_list(lv.inputs@) + seq![44u8] + key_outputs()
        + enc_num_list(lv.outputs@) + seq![44u8] + key_biases() + enc_num_list(lv.biases@);
    lemma_split_at(bs, pos, f9, seq![44u8]);
    let f8 = seq![123u8] + key_inputs() + enc_num_list(lv.inputs@) + seq![44u8] + key_outputs()
        + enc_num_list(lv.outputs@) + seq![44u8] + key_biases();
    lemma_split_at(bs, pos, f8, enc_num_list(lv.biases@));
    let f7 = seq![123u8] + key_inputs() + enc_num_list(lv.inputs@) + seq![44u8] + key_outputs()
        + enc_num_list(lv.outputs@) + seq![44u8];
    lemma_split_at(bs, pos, f7, key_biases());
    let f6 = seq![123u8] + key_inputs() + enc_num_list(lv.inputs@) + seq![44u8] + key_outputs()
        + enc_num_list(lv.outputs@);
    lemma_split_at(bs, pos, f6, seq![44u8]);
    let f5 = seq![123u8] + key_inputs() + enc_num_list(lv.inputs@) + seq![44u8] + key_outputs();
    lemma_split_at(bs, pos, f5, enc_num_list(lv.outputs@));
    let f4 = seq![123u8] + key_inputs() + enc_num_list(lv.inputs@) + seq![44u8];
    lemma_split_at(bs, pos, f4, key_outputs());
    let f3 = seq![123u8] + key_inputs() + enc_num_list(lv.inputs@);
    lemma_split_at(bs, pos, f3, seq![44u8]);
    let f2 = seq![123u8] + key_inputs();
    lemma_split_at(bs, pos, f2, enc_num_list(lv.inputs@));
    let f1 = seq![123u8];
    lemma_split_at(bs, pos, f1, key_inputs());
    assert(bs[pos] == 123) by {
        assert(bs.subrange(pos, pos + 1)[0] == seq![123u8][0]);
    };
    assert(bs[pos + 10 + li] == 44) by {
        assert(bs.subrange(pos + 10 + li, pos + 11 + li)[0] == seq![44u8][0]);
    };
    assert(bs[pos + 21 + li + lo] == 44) by {
        assert(bs.subrange(pos + 21 + li + lo, pos + 22 + li + lo)[0] == seq![44u8][0]);
    };
    assert(bs[pos + 31 + li + lo + lb] == 44) by {
        assert(bs.subrange(pos + 31 + li + lo + lb, pos + 32 + li + lo + lb)[0] == seq![44u8][0]);
    };
    assert(bs[pos + 42 + li + lo + lb + lw] == 125) by {
        assert(bs.subrange(pos + 42 + li + lo + lb + lw, pos + 43 + li + lo + lb + lw)[0]
            == seq![125u8][0]);
    };
}

/// The canonical text of a level object up to and including the comma
/// before its weights key.
pub open spec fn enc_level_prefix(ins: Seq<i64>, outs: Seq<i64>, bias: Seq<i64>) -> Seq<u8> {
    seq![123u8] + key_inputs() + enc_num_list(ins) + seq![44u8] + key_outputs() + enc_num_list(
        outs,
    ) + seq![44u8] + key_biases() + enc_num_list(bias) + seq![44u8]
}

/// The success case of reading a level prefix: the pieces found assemble
/// into the canonical prefix, and any level whose text sits here carries
/// exactly these three value lists.
#[verifier::rlimit(100)]
proof fn lemma_prefix_success(
    bs: Seq<u8>,
    pos: int,
    p2: int,
    p3: int,
    p5: int,
    p6: int,
    p8: int,
    p9: int,
    p10: int,
    ins: Seq<i64>,
    outs: Seq<i64>,
    bias: Seq<i64>,
)
    requires
        0 <= pos,
        pos + 1 <= p2 <= p3 <= p3 + 1 <= p5 <= p6 <= p6 + 1 <= p8 <= p9 <= p9 + 1 <= p10
            <= bs.len(),
        p2 == pos + 10,
        p5 == p3 + 11,
        p8 == p6 + 10,
        p10 == p9 + 1,
        bs.subrange(pos, pos + 1) == seq![123u8],
        bs.subrange(pos + 1, p2) == key_inputs(),
        bs.subrange(p2, p3) == enc_num_list(ins),
        bs.subrange(p3, p3 + 1) == seq![44u8],
        bs.subrange(p3 + 1, p5) == key_outputs(),
        bs.subrange(p5, p6) == enc_num_list(outs),
        bs.subrange(p6, p6 + 1) == seq![44u8],
        bs.subrange(p6 + 1, p8) == key_biases(),
        bs.subrange(p8, p9) == enc_num_list(bias),
        bs.subrange(p9, p10) == seq![44u8],
        forall|s: Seq<i64>| #[trigger] num_list_at(bs, p2, s) ==> s == ins,
        forall|s: Seq<i64>| #[trigger] num_list_at(bs, p5, s) ==> s == outs,
        forall|s: Seq<i64>| #[trigger] num_list_at(bs, p8, s) ==> s == bias,
    ensures
        bs.subrange(pos, p10) == enc_level_prefix(ins, outs, bias),
        forall|lv: Level|
            #[trigger] level_at(bs, pos, lv) ==> (lv.inputs@ == ins && lv.outputs@ == outs
                && lv.biases@ == bias && p10 == pos + 32 + enc_num_list(ins).len() + enc_num_list(
                outs,
            ).len() + enc_num_list(bias).len()),
{
    lemma_join(bs, pos, pos + 1, p2, seq![123u8], key_inputs());
    lemma_join(bs, pos, p2, p3, seq![123u8] + key_inputs(), enc_num_list(ins));
    lemma_join(bs, pos, p3, p3 + 1, seq![123u8] + key_inputs() + enc_num_list(ins), seq![44u8]);
    lemma_join(
        bs,
        pos,
        p3 + 1,
        p5,
        seq![123u8] + key_inputs() + enc_num_list(ins) + seq![44u8],
        key_outputs(),
    );
    lemma_join(
        bs,
        pos,
        p5,
        p6,
        seq![123u8] + key_inputs() + enc_num_list(ins) + seq![44u8] + key_outputs(),
        enc_num_list(outs),
    );
    lemma_join(
        bs,
        pos,
        p6,
        p6 + 1,
        seq![123u8] + key_inputs() + enc_num_list(ins) + seq![44u8] + key_outputs() + enc_num_list(
            outs,
        ),
        seq![44u8],
    );
    lemma_join(
        bs,
        pos,
        p6 + 1,
        p8,
        seq![123u8] + key_inputs() + enc_num_list(ins) + seq![44u8] + key_outputs() + enc_num_list(
            outs,
        ) + seq![44u8],
        key_biases(),
    );
    lemma_join(
        bs,
        pos,
        p8,
        p9,
        seq![123u8] + key_inputs() + enc_num_list(ins) + seq![44u8] + key_outputs() + enc_num_list(
            outs,
        ) + seq![44u8] + key_biases(),
        enc_num_list(bias),
    );
    lemma_join(
        bs,
        pos,
        p9,
        p10,
        seq![123u8] + key_inputs() + enc_num_list(ins) + seq![44u8] + key_outputs() + enc_num_list(
            outs,
        ) + seq![44u8] + key_biases() + enc_num_list(bias),
        seq![44u8],
    );
    assert forall|lv: Level| level_at(bs, pos, lv) implies (lv.inputs@ == ins && lv.outputs@
        == outs && lv.biases@ == bias && p10 == pos + 32 + enc_num_list(ins).len() + enc_num_list(
        outs,
    ).len() + enc_num_list(bias).len()) by {
        lemma_level_parts(bs, pos, lv);
        let li = enc_num_list(lv.inputs@).len() as int;
        let lo = enc_num_list(lv.outputs@).len() as int;
        let lb = enc_num_list(lv.biases@).len() as int;
        assert(num_list_at(bs, p2, lv.inputs@));
        assert(lv.inputs@ == ins);
        assert(p3 == p2 + enc_num_list(ins).len());
        assert(pos + 21 + li == p5);
        assert(num_list_at(bs, p5, lv.outputs@));
        assert(lv.outputs@ == outs);
        assert(p6 == p5 + enc_num_list(outs).len());
        assert(pos + 31 + li + lo == p8);
        assert(num_list_at(bs, p8, lv.biases@));
        assert(lv.biases@ == bias);
        assert(p9 == p8 + enc_num_list(bias).len());
    };
}

/// Read the opening of a level object: the brace, then the inputs, outputs
/// and biases fields, through the comma before the weights key.
#[verifier::rlimit(100)]
fn parse_level_prefix(input: &Vec<u8>, pos: usize) -> (r: Option<
    (Vec<i64>, Vec<i64>, Vec<i64>, usize),
>)
    requires
        pos <= input@.len(),
    ensures
        r matches Some(pr) ==> {
            &&& vals_in_unit(pr.0@)
            &&& vals_in_unit(pr.1@)
            &&& vals_in_unit(pr.2@)
            &&& pos < pr.3 <= input@.len()
            &&& input@.subrange(pos as int, pr.3 as int) == enc_level_prefix(pr.0@, pr.1@, pr.2@)
        },
        forall|lv: Level|
            #[trigger] level_at(input@, pos as int, lv) ==> (r matches Some(pr) && pr.0@
                == lv.inputs@ && pr.1@ == lv.outputs@ && pr.2@ == lv.biases@ && pr.3 == pos + 32
                + enc_num_list(lv.inputs@).len() + enc_num_list(lv.outputs@).len() + enc_num_list(
                lv.biases@,
            ).len()),
{
    let ghost bs = input@;
    let r0 = expect_byte(input, pos, 123);
    let p1 = match r0 {
        Some(p) => p,
        None => {
            proof {
                assert forall|lv: Level| level_at(bs, pos as int, lv) implies false by {
                    lemma_level_parts(bs, pos as int, lv);
                    assert(pos + 43 <= bs.len());
                    assert(bs[pos as int] == 123);
                };
            }
            return None;
        },
    };
    let r1 = expect_key(input, p1, 0);
    let p2 = match r1 {
        Some(p) => p,
        None => {
            proof {
                assert forall|lv: Level| level_at(bs, pos as int, lv) implies false by {
                    lemma_level_parts(bs, pos as int, lv);
                    assert(pos + 43 <= bs.len());
                    assert(bs.subrange(p1 as int, p1 + 9) == key_inputs());
                };
            }
            return None;
        },
    };
    let r2 = parse_num_list(input, p2);
    let (inputs, p3) = match r2 {
        Some(pr) => pr,
        None => {
            proof {
                assert forall|lv: Level| level_at(bs, pos as int, lv) implies false by {
                    lemma_level_parts(bs, pos as int, lv);
                    assert(num_list_at(bs, p2 as int, lv.inputs@));
                };
            }
            return None;
        },
    };
    let r3 = expect_byte(input, p3, 44);
    let p4 = match r3 {
        Some(p) => p,
        None => {
            proof {
                assert forall|lv: Level| level_at(bs, pos as int, lv) implies false by {
                    lemma_level_parts(bs, pos as int, lv);
                    let li = enc_num_list(lv.inputs@).len() as int;
                    assert(num_list_at(bs, p2 as int, lv.inputs@));
                    assert(p3 == pos + 10 + li);
                    assert(pos + 43 + li <= bs.len());
                    assert(bs[p3 as int] == 44);
                };
            }
            return None;
        },
    };
    let r4 = expect_key(input, p4, 1);
    let p5 = match r4 {
        Some(p) => p,
        None => {
            proof {
                assert forall|lv: Level| level_at(bs, pos as int, lv) implies false by {
                    lemma_level_parts(bs, pos as int, lv);
                    let li = enc_num_list(lv.inputs@).len() as int;
                    assert(num_list_at(bs, p2 as int, lv.inputs@));
                    assert(p4 == pos + 11 + li);
                    assert(pos + 43 + li <= bs.len());
                    assert(bs.subrange(p4 as int, p4 + 10) == key_outputs());
                };
            }
            return None;
        },
    };
    let r5 = parse_num_list(input, p5);
    let (outputs, p6) = match r5 {
        Some(pr) => pr,
        None => {
            proof {
                assert forall|lv: Level| level_at(bs, pos as int, lv) implies false by {
                    lemma_level_parts(bs, pos as int, lv);
                    let li = enc_num_list(lv.inputs@).len() as int;
                    assert(num_list_at(bs, p2 as int, lv.inputs@));
                    assert(p5 == pos + 21 + li);
                    assert(num_list_at(bs, p5 as int, lv.outputs@));
                };
            }
            return None;
        },
    };
    let r6 = expect_byte(input, p6, 44);
    let p7 = match r6 {
        Some(p) => p,
        None => {
            proof {
                assert forall|lv: Level| level_at(bs, pos as int, lv) implies false by {
                    lemma_level_parts(bs, pos as int, lv);
                    let li = enc_num_list(lv.inputs@).len() as int;
                    let lo = enc_num_list(lv.outputs@).len() as int;
                    assert(num_list_at(bs, p2 as int, lv.inputs@));
                    assert(num_list_at(bs, p5 as int, lv.outputs@));
                    assert(p6 == pos + 21 + li + lo);
                    assert(pos + 43 + li + lo <= bs.len());
                    assert(bs[p6 as int] == 44);
                };
            }
            return None;
        },
    };
    let r7 = expect_key(input, p7, 2);
    let p8 = match r7 {
        Some(p) => p,
        None => {
            proof {
                assert forall|lv: Level| level_at(bs, pos as int, lv) implies false by {
                    lemma_level_parts(bs, pos as int, lv);
                    let li = enc_num_list(lv.inputs@).len() as int;
                    let lo = enc_num_list(lv.outputs@).len() as int;
                    assert(num_list_at(bs, p2 as int, lv.inputs@));
                    assert(num_list_at(bs, p5 as int, lv.outputs@));
                    assert(p7 == pos + 22 + li + lo);
                    assert(pos + 43 + li + lo <= bs.len());
                    assert(bs.subrange(p7 as int, p7 + 9) == key_biases());
                };
            }
            return None;
        },
    };
    let r8 = parse_num_list(input, p8);
    let (biases, p9) = match r8 {
        Some(pr) => pr,
        None => {
            proof {
                assert forall|lv: Level| level_at(bs, pos as int, lv) implies false by {
                    lemma_level_parts(bs, pos as int, lv);
                    let li = enc_num_list(lv.inputs@).len() as int;
                    let lo = enc_num_list(lv.outputs@).len() as int;
                    assert(num_list_at(bs, p2 as int, lv.inputs@));
                    assert(num_list_at(bs, p5 as int, lv.outputs@));
                    assert(p8 == pos + 31 + li + lo);
                    assert(num_list_at(bs, p8 as int, lv.biases@));
                };
            }
            return None;
        },
    };
    let r9 = expect_byte(input, p9, 44);
    let p10 = match r9 {
        Some(p) => p,
        None => {
            proof {
                assert forall|lv: Level| level_at(bs, pos as int, lv) implies false by {
                    lemma_level_parts(bs, pos as int, lv);
                    let li = enc_num_list(lv.inputs@).len() as int;
                    let lo = enc_num_list(lv.outputs@).len() as int;
                    let lb = enc_num_list(lv.biases@).len() as int;
                    assert(num_list_at(bs, p2 as int, lv.inputs@));
                    assert(num_list_at(bs, p5 as int, lv.outputs@));
                    assert(num_list_at(bs, p8 as int, lv.biases@));
                    assert(p9 == pos + 31 + li + lo + lb);
                    assert(pos + 43 + li + lo + lb <= bs.len());
                    assert(bs[p9 as int] == 44);
                };
            }
            return None;
        },
    };
    proof {
        assert(bs.subrange(pos as int, pos + 1) =~= seq![123u8]);
        assert(bs.subrange(p3 as int, p3 + 1) =~= seq![44u8]);
        assert(bs.subrange(p6 as int, p6 + 1) =~= seq![44u8]);
        assert(bs.subrange(p9 as int, p10 as int) =~= seq![44u8]);
        assert forall|s: Seq<i64>| #[trigger] num_list_at(bs, p2 as int, s) implies s
            == inputs@ by {};
        assert forall|s: Seq<i64>| #[trigger] num_list_at(bs, p5 as int, s) implies s
            == outputs@ by {};
        assert forall|s: Seq<i64>| #[trigger] num_list_at(bs, p8 as int, s) implies s
            == biases@ by {};
        lemma_prefix_success(
            bs,
            pos as int,
            p2 as int,
            p3 as int,
            p5 as int,
            p6 as int,
            p8 as int,
            p9 as int,
            p10 as int,
            inputs@,
            outputs@,
            biases@,
        );
    }
    Some((inputs, outputs, biases, p10))
}

/// The success case of reading a whole level: the prefix and the weights
/// field assemble into the canonical text, and any level whose text sits
/// here is interchangeable with the one built.
#[verifier::rlimit(100)]
proof fn lemma_level_success(
    bs: Seq<u8>,
    pos: int,
    p10: int,
    p11: int,
    p12: int,
    p13: int,
    level: Level,
)
    requires
        level_wf(level),
        0 <= pos <= p10 <= p11 <= p12 <= p13 <= bs.len(),
        p10 == pos + 32 + enc_num_list(level.inputs@).len() + enc_num_list(level.outputs@).len()
            + enc_num_list(level.biases@).len(),
        p11 == p10 + 10,
        p13 == p12 + 1,
        bs.subrange(pos, p10) == enc_level_prefix(level.inputs@, level.outputs@, level.biases@),
        bs.subrange(p10, p11) == key_weights(),
        bs.subrange(p11, p12) == enc_row_list(row_views(level.weights@)),
        bs.subrange(p12, p13) == seq![125u8],
        forall|lv: Level|
            #[trigger] level_at(bs, pos, lv) ==> (lv.inputs@ == level.inputs@ && lv.outputs@
                == level.outputs@ && lv.biases@ == level.biases@),
        forall|ws: Seq<Seq<i64>>|
            #[trigger] row_list_at(bs, p11, ws) ==> ws == row_views(level.weights@),
    ensures
        bs.subrange(pos, p13) == enc_level(level),
        forall|lv: Level|
            #[trigger] level_at(bs, pos, lv) ==> (level_equiv(level, lv) && p13 == pos + enc_level(
                lv,
            ).len()),
{
    reveal(enc_level);
    lemma_join(
        bs,
        pos,
        p10,
        p11,
        enc_level_prefix(level.inputs@, level.outputs@, level.biases@),
        key_weights(),
    );
    lemma_join(
        bs,
        pos,
        p11,
        p12,
        enc_level_prefix(level.inputs@, level.outputs@, level.biases@) + key_weights(),
        enc_row_list(row_views(level.weights@)),
    );
    lemma_join(
        bs,
        pos,
        p12,
        p13,
        enc_level_prefix(level.inputs@, level.outputs@, level.biases@) + key_weights()
            + enc_row_list(row_views(level.weights@)),
        seq![125u8],
    );
    assert(enc_level(level) =~= enc_level_prefix(level.inputs@, level.outputs@, level.biases@)
        + key_weights() + enc_row_list(row_views(level.weights@)) + seq![125u8]);
    assert forall|lv: Level| level_at(bs, pos, lv) implies (level_equiv(level, lv) && p13 == pos
        + enc_level(lv).len()) by {
        lemma_level_parts(bs, pos, lv);
        let li = enc_num_list(lv.inputs@).len() as int;
        let lo = enc_num_list(lv.outputs@).len() as int;
        let lb = enc_num_list(lv.biases@).len() as int;
        let lw = enc_row_list(row_views(lv.weights@)).len() as int;
        assert(pos + 42 + li + lo + lb == p11);
        assert(row_list_at(bs, p11, row_views(lv.weights@)));
        assert(row_views(lv.weights@) == row_views(level.weights@));
        assert(p12 == p11 + lw);
        assert(level.weights@.len() == lv.weights@.len());
        assert forall|k: int| 0 <= k < level.weights@.len() implies (#[trigger] level.weights@[k])@
            == lv.weights@[k]@ by {
            assert(row_views(level.weights@)[k] == level.weights@[k]@);
            assert(row_views(lv.weights@)[k] == lv.weights@[k]@);
        };
        assert(p13 == pos + 43 + li + lo + lb + lw);
    };
}

/// Read one level object and validate its dimensions.
#[verifier::rlimit(100)]
fn parse_level(input: &Vec<u8>, pos: usize) -> (r: Option<(Level, usize)>)
    requires
        pos <= input@.len(),
    ensures
        r matches Some(pr) ==> {
            &&& level_wf(pr.0)
            &&& pos < pr.1 <= input@.len()
            &&& input@.subrange(pos as int, pr.1 as int) == enc_level(pr.0)
        },
        forall|lv: Level|
            #[trigger] level_at(input@, pos as int, lv) ==> (r matches Some(pr) && level_equiv(
                pr.0,
                lv,
            ) && pr.1 == pos + enc_level(lv).len()),
{
    let ghost bs = input@;
    let r0 = parse_level_prefix(input, pos);
    let (inputs, outputs, biases, p10) = match r0 {
        Some(pr) => pr,
        None => {
            proof {
                assert forall|lv: Level| level_at(bs, pos as int, lv) implies false by {};
            }
            return None;
        },
    };
    let r10 = expect_key(input, p10, 3);
    let p11 = match r10 {
        Some(p) => p,
        None => {
            proof {
                assert forall|lv: Level| level_at(bs, pos as int, lv) implies false by {
                    lemma_level_parts(bs, pos as int, lv);
                    let li = enc_num_list(lv.inputs@).len() as int;
                    let lo = enc_num_list(lv.outputs@).len() as int;
                    let lb = enc_num_list(lv.biases@).len() as int;
                    assert(p10 == pos + 32 + li + lo + lb);
                    assert(pos + 43 + li + lo + lb <= bs.len());
                    assert(bs.subrange(p10 as int, p10 + 10) == key_weights());
                };
            }
            return None;
        },
    };
    let r11 = parse_row_list(input, p11);
    let (weights, p12) = match r11 {
        Some(pr) => pr,
        None => {
            proof {
                assert forall|lv: Level| level_at(bs, pos as int, lv) implies false by {
                    lemma_level_parts(bs, pos as int, lv);
                    let li = enc_num_list(lv.inputs@).len() as int;
                    let lo = enc_num_list(lv.outputs@).len() as int;
                    let lb = enc_num_list(lv.biases@).len() as int;
                    assert(p10 == pos + 32 + li + lo + lb);
                    assert(p11 == pos + 42 + li + lo + lb);
                    assert(row_list_at(bs, p11 as int, row_views(lv.weights@)));
                };
            }
            return None;
        },
    };
    let r12 = expect_byte(input, p12, 125);
    let p13 = match r12 {
        Some(p) => p,
        None => {
            proof {
                assert forall|lv: Level| level_at(bs, pos as int, lv) implies false by {
                    lemma_level_parts(bs, pos as int, lv);
                    let li = enc_num_list(lv.inputs@).len() as int;
                    let lo = enc_num_list(lv.outputs@).len() as int;
                    let lb = enc_num_list(lv.biases@).len() as int;
                    let lw = enc_row_list(row_views(lv.weights@)).len() as int;
                    assert(p10 == pos + 32 + li + lo + lb);
                    assert(p11 == pos + 42 + li + lo + lb);
                    assert(row_list_at(bs, p11 as int, row_views(lv.weights@)));
                    assert(p12 == pos + 42 + li + lo + lb + lw);
                    assert(pos + 43 + li + lo + lb + lw <= bs.len());
                    assert(bs[p12 as int] == 125);
                };
            }
            return None;
        },
    };
    let in_count = inputs.len();
    let out_count = outputs.len();
    if in_count > LEVEL_NODE_LIM || out_count > LEVEL_NODE_LIM || biases.len() != out_count
        || weights.len() != in_count {
        proof {
            assert forall|lv: Level| level_at(bs, pos as int, lv) implies false by {
                lemma_level_parts(bs, pos as int, lv);
                assert(p11 == pos + 42 + enc_num_list(lv.inputs@).len() + enc_num_list(
                    lv.outputs@,
                ).len() + enc_num_list(lv.biases@).len());
                assert(row_list_at(bs, p11 as int, row_views(lv.weights@)));
                assert(row_views(weights@) == row_views(lv.weights@));
                assert(weights@.len() == lv.weights@.len());
            };
        }
        return None;
    }
    let mut w: usize = 0;
    #[verifier::loop_isolation(false)]
    while w < in_count
        invariant
            0 <= w <= in_count,
            forall|k: int| 0 <= k < w ==> (#[trigger] weights@[k])@.len() == out_count,
        decreases in_count - w,
    {
        if weights[w].len() != out_count {
            proof {
                assert forall|lv: Level| level_at(bs, pos as int, lv) implies false by {
                    lemma_level_parts(bs, pos as int, lv);
                    assert(p11 == pos + 42 + enc_num_list(lv.inputs@).len() + enc_num_list(
                        lv.outputs@,
                    ).len() + enc_num_list(lv.biases@).len());
                    assert(row_list_at(bs, p11 as int, row_views(lv.weights@)));
                    assert(row_views(weights@) == row_views(lv.weights@));
                    assert(row_views(weights@)[w as int] == weights@[w as int]@);
                    assert(row_views(lv.weights@)[w as int] == lv.weights@[w as int]@);
                };
            }
            return None;
        }
        w += 1;
    }
    let level = Level { inputs, outputs, biases, weights };
    proof {
        assert(level_wf(level)) by {
            assert(forall|k: int|
                0 <= k < level.weights@.len() ==> vals_in_unit((#[trigger] level.weights@[k])@));
        };
        assert(bs.subrange(p12 as int, p13 as int) =~= seq![125u8]);
        assert forall|lv: Level| #[trigger] level_at(bs, pos as int, lv) implies (lv.inputs@
            == level.inputs@ && lv.outputs@ == level.outputs@ && lv.biases@ == level.biases@) by {};
        assert forall|ws: Seq<Seq<i64>>| #[trigger] row_list_at(bs, p11 as int, ws) implies ws
            == row_views(level.weights@) by {};
        assert(p10 == pos + 32 + enc_num_list(level.inputs@).len() + enc_num_list(
            level.outputs@,
        ).len() + enc_num_list(level.biases@).len()) by {
            assert(bs.subrange(pos as int, p10 as int).len() == p10 - pos);
        };
        lemma_level_success(
            bs,
            pos as int,
            p10 as int,
            p11 as int,
            p12 as int,
            p13 as int,
            level,
        );
    }
    Some((level, p13))
}

/// The canonical text of the non-empty run of levels `ls` sits at `pos`,
/// and the byte after it (if any) is not a comma.
pub open spec fn levels_at(bs: Seq<u8>, pos: int, ls: Seq<Level>) -> bool {
    &&& ls.len() >= 1
    &&& forall|i: int| 0 <= i < ls.len() ==> level_wf(#[trigger] ls[i])
    &&& 0 <= pos
    &&& pos + enc_levels(ls).len() <= bs.len()
    &&& bs.subrange(pos, pos + enc_levels(ls).len()) == enc_levels(ls)
    &&& (pos + enc_levels(ls).len() == bs.len() || bs[pos + enc_levels(ls).len()] != 44)
}

/// The head of a run of levels is a level at `pos`; a longer run continues
/// with a comma.
proof fn lemma_levels_head(bs: Seq<u8>, pos: int, ls: Seq<Level>)
    requires
        levels_at(bs, pos, ls),
    ensures
        level_at(bs, pos, ls[0]),
        ls.len() >= 2 ==> pos + enc_level(ls[0]).len() < bs.len() && bs[pos + enc_level(
            ls[0],
        ).len()] == 44,
{
    if ls.len() == 1 {
        assert(enc_levels(ls) == enc_level(ls[0]));
    } else {
        let rest = seq![44u8] + enc_levels(ls.skip(1));
        assert(enc_levels(ls) == enc_level(ls[0]) + rest) by {
            assert(enc_level(ls[0]) + seq![44u8] + enc_levels(ls.skip(1)) =~= enc_level(ls[0])
                + rest);
        };
        lemma_split_at(bs, pos, enc_level(ls[0]), rest);
        assert(bs[pos + enc_level(ls[0]).len()] == 44) by {
            assert(bs.subrange(
                pos + enc_level(ls[0]).len(),
                pos + enc_level(ls[0]).len() + rest.len(),
            )[0] == rest[0]);
        };
    }
}

/// Dropping the head level and its comma leaves the rest of the run.
proof fn lemma_levels_tail(bs: Seq<u8>, pos: int, ls: Seq<Level>)
    requires
        levels_at(bs, pos, ls),
        ls.len() >= 2,
    ensures
        levels_at(bs, pos + enc_level(ls[0]).len() + 1, ls.skip(1)),
{
    let head = enc_level(ls[0]) + seq![44u8];
    let tail = enc_levels(ls.skip(1));
    assert(enc_levels(ls) == head + tail) by {
        assert(enc_level(ls[0]) + seq![44u8] + enc_levels(ls.skip(1)) =~= head + tail);
    };
    lemma_split_at(bs, pos, head, tail);
    assert(forall|i: int| 0 <= i < ls.skip(1).len() ==> #[trigger] ls.skip(1)[i] == ls[i + 1]);
}

/// Read a non-empty comma-separated run of level objects.
fn parse_levels(input: &Vec<u8>, pos: usize) -> (r: Option<(Vec<Level>, usize)>)
    requires
        pos <= input@.len(),
    ensures
        r matches Some(pr) ==> {
            &&& pr.0@.len() >= 1
            &&& forall|i: int| 0 <= i < pr.0@.len() ==> level_wf(#[trigger] pr.0@[i])
            &&& pos < pr.1 <= input@.len()
            &&& input@.subrange(pos as int, pr.1 as int) == enc_levels(pr.0@)
        },
        forall|ls: Seq<Level>|
            #[trigger] levels_at(input@, pos as int, ls) ==> (r matches Some(pr) && levels_equiv(
                pr.0@,
                ls,
            ) && pr.1 == pos + enc_levels(ls).len()),
    decreases input@.len() - pos,
{
    let ghost bs = input@;
    let r0 = parse_level(input, pos);
    match r0 {
        None => {
            proof {
                assert forall|ls: Seq<Level>| levels_at(bs, pos as int, ls) implies false by {
                    lemma_levels_head(bs, pos as int, ls);
                };
            }
            None
        },
        Some((lvl0, p1)) => {
            let len = input.len();
            if p1 < len && input[p1] == 44 {
                let r1 = parse_levels(input, p1 + 1);
                match r1 {
                    None => {
                        proof {
                            assert forall|ls: Seq<Level>| levels_at(bs, pos as int, ls) implies
                            false by {
                                lemma_levels_head(bs, pos as int, ls);
                                if ls.len() >= 2 {
                                    lemma_levels_tail(bs, pos as int, ls);
                                }
                            };
                        }
                        None
                    },
                    Some((tail, p2)) => {
                        let ghost lvl0v = lvl0;
                        let mut vs = tail;
                        vs.insert(0, lvl0);
                        proof {
                            assert(vs@ =~= seq![lvl0v] + tail@);
                            assert(vs@[0] == lvl0v && vs@.skip(1) =~= tail@);
                            assert(vs@.len() >= 2);
                            assert(enc_levels(vs@) == enc_level(lvl0v) + seq![44u8] + enc_levels(
                                tail@,
                            ));
                            assert(bs.subrange(p1 as int, p1 + 1) =~= seq![44u8]);
                            lemma_join(
                                bs,
                                pos as int,
                                p1 as int,
                                p1 + 1,
                                enc_level(lvl0v),
                                seq![44u8],
                            );
                            lemma_join(
                                bs,
                                pos as int,
                                p1 + 1,
                                p2 as int,
                                enc_level(lvl0v) + seq![44u8],
                                enc_levels(tail@),
                            );
                            assert(bs.subrange(pos as int, p2 as int) == enc_levels(vs@));
                            assert(forall|i: int|
                                0 <= i < vs@.len() ==> level_wf(#[trigger] vs@[i]));
                            assert forall|ls: Seq<Level>| levels_at(bs, pos as int, ls) implies (
                            levels_equiv(vs@, ls) && p2 == pos + enc_levels(ls).len()) by {
                                lemma_levels_head(bs, pos as int, ls);
                                if ls.len() == 1 {
                                    assert(bs[p1 as int] != 44);
                                    assert(false);
                                } else {
                                    lemma_levels_tail(bs, pos as int, ls);
                                    assert(levels_equiv(tail@, ls.skip(1)));
                                    assert(levels_equiv(vs@, ls)) by {
                                        assert forall|i: int| 0 <= i < vs@.len() implies
                                        level_equiv(#[trigger] vs@[i], ls[i]) by {
                                            if i >= 1 {
                                                assert(vs@[i] == tail@[i - 1]);
                                                assert(ls.skip(1)[i - 1] == ls[i]);
                                                assert(level_equiv(tail@[i - 1], ls.skip(1)[i
                                                    - 1]));
                                            }
                                        };
                                    };
                                    assert(enc_levels(ls).len() == enc_level(ls[0]).len() + 1
                                        + enc_levels(ls.skip(1)).len());
                                }
                            };
                        }
                        Some((vs, p2))
                    },
                }
            } else {
                let ghost lvl0v = lvl0;
                let mut vs: Vec<Level> = Vec::new();
                vs.push(lvl0);
                proof {
                    assert(vs@ =~= seq![lvl0v]);
                    assert(enc_levels(vs@) == enc_level(lvl0v));
                    assert forall|ls: Seq<Level>| levels_at(bs, pos as int, ls) implies (
                    levels_equiv(vs@, ls) && p1 == pos + enc_levels(ls).len()) by {
                        lemma_levels_head(bs, pos as int, ls);
                        if ls.len() >= 2 {
                            assert(bs[pos + enc_level(ls[0]).len()] == 44);
                            assert(false);
                        } else {
                            assert(enc_levels(ls) == enc_level(ls[0]));
                        }
                    };
                }
                Some((vs, p1))
            }
        },
    }
}

/// Well-formed level lists whose consecutive dimensions agree: exactly what
/// [`net_wf`] asks of a controller's levels.
pub open spec fn levels_chain_wf(ls: Seq<Level>) -> bool {
    &&& ls.len() >= 1
    &&& forall|i: int| 0 <= i < ls.len() ==> level_wf(#[trigger] ls[i])
    &&& forall|i: int|
        0 <= i < ls.len() - 1 ==> (#[trigger] ls[i]).outputs@.len() == ls[i + 1].inputs@.len()
}

/// Decode a controller from its canonical text. Anything but the canonical
/// serialisation of a well-formed controller is treated as corrupt and
/// yields `None`; the canonical text of any well-formed controller decodes
/// back to an interchangeable copy of it, value for value.
pub fn decode_network(input: &Vec<u8>) -> (r: Option<NeuralNetwork>)
    ensures
        r matches Some(n) ==> net_wf(n) && input@ == enc_network(n.levels@),
        forall|ls: Seq<Level>|
            (levels_chain_wf(ls) && input@ == #[trigger] enc_network(ls)) ==> (r matches Some(n)
                && levels_equiv(n.levels@, ls)),
{
    let ghost bs = input@;
    let len = input.len();
    if !(0 < len && input[0] == 91) {
        proof {
            assert forall|ls: Seq<Level>| levels_chain_wf(ls) && bs == enc_network(ls) implies
            false by {
                assert(bs[0] == enc_network(ls)[0]);
                assert(enc_network(ls)[0] == 91);
            };
        }
        return None;
    }
    proof {
        assert forall|ls: Seq<Level>| levels_chain_wf(ls) && bs == enc_network(ls) implies
        levels_at(bs, 1, ls) by {
            lemma_decode_shape(bs, ls);
        };
    }
    let r1 = parse_levels(input, 1);
    match r1 {
        None => {
            proof {
                assert forall|ls: Seq<Level>| levels_chain_wf(ls) && bs == enc_network(ls) implies
                false by {
                    lemma_decode_shape(bs, ls);
                };
            }
            None
        },
        Some((lvls, p1)) => {
            if !(p1 < len && input[p1] == 93 && p1 + 1 == len) {
                proof {
                    assert forall|ls: Seq<Level>| levels_chain_wf(ls) && bs == enc_network(
                        ls,
                    ) implies false by {
                        lemma_decode_shape(bs, ls);
                    };
                }
                return None;
            }
            let n = lvls.len();
            let pairs = n - 1;
            let mut ok = true;
            let mut i: usize = 0;
            while i < pairs
                invariant
                    0 <= i <= pairs,
                    pairs == n - 1,
                    1 <= n == lvls@.len(),
                    ok == (forall|k: int|
                        0 <= k < i ==> (#[trigger] lvls@[k]).outputs@.len() == lvls@[k
                            + 1].inputs@.len()),
                decreases pairs - i,
            {
                if lvls[i].outputs.len() != lvls[i + 1].inputs.len() {
                    ok = false;
                }
                i += 1;
            }
            if !ok {
                proof {
                    assert forall|ls: Seq<Level>| levels_chain_wf(ls) && bs == enc_network(
                        ls,
                    ) implies false by {
                        lemma_decode_shape(bs, ls);
                        assert(levels_equiv(lvls@, ls));
                        assert forall|k: int| 0 <= k < n - 1 implies (#[trigger] lvls@[k]).outputs@.len()
                            == lvls@[k + 1].inputs@.len() by {
                            assert(level_equiv(lvls@[k], ls[k]));
                            assert(level_equiv(lvls@[k + 1], ls[k + 1]));
                        };
                    };
                }
                return None;
            }
            let net = NeuralNetwork { levels: lvls };
            proof {
                assert(net_wf(net));
                assert(bs.subrange(0, 1) =~= seq![91u8]);
                lemma_join(bs, 0, 1, p1 as int, seq![91u8], enc_levels(net.levels@));
                assert(bs.subrange(p1 as int, p1 + 1) =~= seq![93u8]);
                lemma_join(
                    bs,
                    0,
                    p1 as int,
                    p1 + 1,
                    seq![91u8] + enc_levels(net.levels@),
                    seq![93u8],
                );
                assert(bs =~= bs.subrange(0, p1 + 1));
                assert(bs == enc_network(net.levels@));
                assert forall|ls: Seq<Level>| levels_chain_wf(ls) && bs == enc_network(ls) implies
                levels_equiv(net.levels@, ls) by {
                    lemma_decode_shape(bs, ls);
                };
            }
            Some(net)
        },
    }
}

/// A whole canonical controller text is `[`, its levels, `]` — and the
/// levels run therefore sits at position 1 with its boundary in place.
proof fn lemma_decode_shape(bs: Seq<u8>, ls: Seq<Level>)
    requires
        levels_chain_wf(ls),
        bs == enc_network(ls),
    ensures
        levels_at(bs, 1, ls),
        bs.len() == 2 + enc_levels(ls).len(),
        bs[1 + enc_levels(ls).len() as int] == 93,
{
    let inner = enc_levels(ls);
    assert(enc_network(ls) == seq![91u8] + (inner + seq![93u8])) by {
        assert(seq![91u8] + inner + seq![93u8] =~= seq![91u8] + (inner + seq![93u8]));
    };
    assert(bs.subrange(0, bs.len() as int) =~= bs);
    lemma_split_at(bs, 0, seq![91u8], inner + seq![93u8]);
    lemma_split_at(bs, 1, inner, seq![93u8]);
    assert(bs[1 + inner.len() as int] == 93) by {
        assert(bs.subrange(1 + inner.len() as int, 2 + inner.len() as int)[0] == seq![93u8][0]);
    };
}

/// Smaller exponents give smaller powers of ten.
proof fn lemma_pow10_increases(a: nat, b: nat)
    requires
        a <= b,
    ensures
        pow10(a) <= pow10(b),
    decreases b,
{
    if a < b {
        lemma_pow10_increases(a, (b - 1) as nat);
        assert(pow10(b) == 10 * pow10((b - 1) as nat));
        assert(pow10((b - 1) as nat) <= 10 * pow10((b - 1) as nat)) by (nonlinear_arith)
            requires
                pow10((b - 1) as nat) >= 0,
        ;
    }
}

} // verus!
