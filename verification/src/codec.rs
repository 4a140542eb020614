use vstd::prelude::*;
use vstd::arithmetic::div_mod::{lemma_fundamental_div_mod, lemma_div_is_ordered};
use crate::feature_detect::{HogResult, rows_view, block_count};
use crate::mathq::lemma_const_div_mod;

verus! {

/// The error of descriptor parsing: the bytes are not a descriptor in
/// the canonical stored form. It is distinct from any input/output
/// failure, which never reaches this module.
#[derive(Debug, PartialEq, Eq, Clone, Copy)]
pub enum DescError {
    Malformed,
}

pub open spec fn is_digit(b: u8) -> bool {
    48 <= b <= 57
}

/// The decimal digits of a non-negative integer, most significant
/// first, without leading zeros.
pub open spec fn uint_digits(n: int) -> Seq<u8>
    decreases n,
{
    if n < 10 {
        seq![(48 + n) as u8]
    } else {
        uint_digits(n / 10).push((48 + n % 10) as u8)
    }
}

/// A stored fixed-point entry: one integer digit, a point, and the six
/// fractional digits of the value in millionths.
pub open spec fn q_digits(q: int) -> Seq<u8> {
    seq![
        (48 + q / 1000000) as u8,
        46u8,
        (48 + (q / 100000) % 10) as u8,
        (48 + (q / 10000) % 10) as u8,
        (48 + (q / 1000) % 10) as u8,
        (48 + (q / 100) % 10) as u8,
        (48 + (q / 10) % 10) as u8,
        (48 + q % 10) as u8,
    ]
}

pub open spec fn row_items(row: Seq<int>) -> Seq<u8>
    decreases row.len(),
{
    if row.len() == 0 {
        Seq::empty()
    } else if row.len() == 1 {
        q_digits(row[0])
    } else {
        row_items(row.drop_last()) + seq![44u8] + q_digits(row.last())
    }
}

pub open spec fn row_bytes(row: Seq<int>) -> Seq<u8> {
    seq![91u8] + row_items(row) + seq![93u8]
}

pub open spec fn data_items(rows: Seq<Seq<int>>) -> Seq<u8>
    decreases rows.len(),
{
    if rows.len() == 0 {
        Seq::empty()
    } else if rows.len() == 1 {
        row_bytes(rows[0])
    } else {
        data_items(rows.drop_last()) + seq![44u8] + row_bytes(rows.last())
    }
}

/// The canonical stored form of a descriptor: a single-line structured
/// document with the dimensions, the two grid parameters and every
/// block vector, each entry with six decimal places.
pub open spec fn render_model(w: int, h: int, cs: int, bs: int, data: Seq<Seq<int>>) -> Seq<u8> {
    seq![
        123u8, 34u8, 100u8, 105u8, 109u8, 101u8, 110u8, 115u8, 105u8, 111u8, 110u8, 115u8,
        34u8, 58u8, 91u8,
    ] + uint_digits(w) + seq![44u8] + uint_digits(h) + seq![
        93u8, 44u8, 34u8, 99u8, 101u8, 108u8, 108u8, 95u8, 115u8, 105u8, 122u8, 101u8, 34u8,
        58u8,
    ] + uint_digits(cs) + seq![
        44u8, 34u8, 98u8, 108u8, 111u8, 99u8, 107u8, 95u8, 115u8, 105u8, 122u8, 101u8, 34u8,
        58u8,
    ] + uint_digits(bs) + seq![44u8, 34u8, 100u8, 97u8, 116u8, 97u8, 34u8, 58u8] + seq![91u8]
        + data_items(data) + seq![93u8, 125u8]
}

/// The stored form of one descriptor value.
pub open spec fn render_of(d: HogResult) -> Seq<u8> {
    render_model(
        d.dimensions.0 as int,
        d.dimensions.1 as int,
        d.cell_size as int,
        d.block_size as int,
        rows_view(d.data@),
    )
}

#[verifier::loop_isolation(false)]
fn push_uint(out: &mut Vec<u8>, n: u64)
    ensures
        final(out)@ == old(out)@ + uint_digits(n as int),
    decreases n,
{
    if n < 10 {
        out.push(48 + n as u8);
        proof {
            assert(out@ =~= old(out)@ + uint_digits(n as int));
        }
    } else {
        push_uint(out, n / 10);
        out.push(48 + (n % 10) as u8);
        proof {
            assert(out@ =~= old(out)@ + uint_digits(n as int));
        }
    }
}

#[verifier::loop_isolation(false)]
fn push_q(out: &mut Vec<u8>, q: u64)
    requires
        q <= 9_999_999,
    ensures
        final(out)@ == old(out)@ + q_digits(q as int),
{
    out.push(48 + (q / 1000000) as u8);
    out.push(46);
    out.push(48 + ((q / 100000) % 10) as u8);
    out.push(48 + ((q / 10000) % 10) as u8);
    out.push(48 + ((q / 1000) % 10) as u8);
    out.push(48 + ((q / 100) % 10) as u8);
    out.push(48 + ((q / 10) % 10) as u8);
    out.push(48 + (q % 10) as u8);
    proof {
        assert(out@ =~= old(out)@ + q_digits(q as int));
    }
}

#[verifier::loop_isolation(false)]
fn push_row(out: &mut Vec<u8>, row: &Vec<u64>)
    requires
        forall|j: int| 0 <= j < row@.len() ==> #[trigger] row@[j] <= 9_999_999,
    ensures
        final(out)@ == old(out)@ + row_bytes(crate::feature_detect::hist_view(*row)),
{
    let ghost hv = crate::feature_detect::hist_view(*row);
    out.push(91);
    let mut j: usize = 0;
    while j < row.len()
        invariant
            j <= row@.len(),
            out@ == old(out)@ + seq![91u8] + row_items(hv.take(j as int)),
        decreases row@.len() - j,
    {
        if j > 0 {
            out.push(44);
        }
        push_q(out, row[j]);
        proof {
            if j == 0 {
                assert(hv.take(1) =~= seq![hv[0]]);
                assert(row_items(hv.take(1)) == q_digits(hv[0]));
                assert(out@ =~= old(out)@ + seq![91u8] + row_items(hv.take(j as int + 1)));
            } else {
                assert(hv.take(j as int + 1).drop_last() =~= hv.take(j as int));
                assert(hv.take(j as int + 1).last() == hv[j as int]);
                assert(out@ =~= old(out)@ + seq![91u8] + row_items(hv.take(j as int + 1)));
            }
        }
        j = j + 1;
    }
    out.push(93);
    proof {
        assert(hv.take(hv.len() as int) =~= hv);
        assert(out@ =~= old(out)@ + row_bytes(hv));
    }
}


#[verifier::loop_isolation(false)]
fn push_lit_dims(out: &mut Vec<u8>)
    ensures
        final(out)@ == old(out)@ + seq![
            123u8, 34u8, 100u8, 105u8, 109u8, 101u8, 110u8, 115u8, 105u8, 111u8, 110u8, 115u8,
            34u8, 58u8, 91u8,
        ],
{
    out.push(123);
    out.push(34);
    out.push(100);
    out.push(105);
    out.push(109);
    out.push(101);
    out.push(110);
    out.push(115);
    out.push(105);
    out.push(111);
    out.push(110);
    out.push(115);
    out.push(34);
    out.push(58);
    out.push(91);
    proof {
        assert(out@ =~= old(out)@ + seq![
            123u8, 34u8, 100u8, 105u8, 109u8, 101u8, 110u8, 115u8, 105u8, 111u8, 110u8, 115u8,
            34u8, 58u8, 91u8,
        ]);
    }
}

#[verifier::loop_isolation(false)]
fn push_lit_cell(out: &mut Vec<u8>)
    ensures
        final(out)@ == old(out)@ + seq![
            93u8, 44u8, 34u8, 99u8, 101u8, 108u8, 108u8, 95u8, 115u8, 105u8, 122u8, 101u8,
            34u8, 58u8,
        ],
{
    out.push(93);
    out.push(44);
    out.push(34);
    out.push(99);
    out.push(101);
    out.push(108);
    out.push(108);
    out.push(95);
    out.push(115);
    out.push(105);
    out.push(122);
    out.push(101);
    out.push(34);
    out.push(58);
    proof {
        assert(out@ =~= old(out)@ + seq![
            93u8, 44u8, 34u8, 99u8, 101u8, 108u8, 108u8, 95u8, 115u8, 105u8, 122u8, 101u8,
            34u8, 58u8,
        ]);
    }
}

#[verifier::loop_isolation(false)]
fn push_lit_block(out: &mut Vec<u8>)
    ensures
        final(out)@ == old(out)@ + seq![
            44u8, 34u8, 98u8, 108u8, 111u8, 99u8, 107u8, 95u8, 115u8, 105u8, 122u8, 101u8,
            34u8, 58u8,
        ],
{
    out.push(44);
    out.push(34);
    out.push(98);
    out.push(108);
    out.push(111);
    out.push(99);
    out.push(107);
    out.push(95);
    out.push(115);
    out.push(105);
    out.push(122);
    out.push(101);
    out.push(34);
    out.push(58);
    proof {
        assert(out@ =~= old(out)@ + seq![
            44u8, 34u8, 98u8, 108u8, 111u8, 99u8, 107u8, 95u8, 115u8, 105u8, 122u8, 101u8,
            34u8, 58u8,
        ]);
    }
}

#[verifier::loop_isolation(false)]
fn push_lit_data(out: &mut Vec<u8>)
    ensures
        final(out)@ == old(out)@ + seq![44u8, 34u8, 100u8, 97u8, 116u8, 97u8, 34u8, 58u8, 91u8],
{
    out.push(44);
    out.push(34);
    out.push(100);
    out.push(97);
    out.push(116);
    out.push(97);
    out.push(34);
    out.push(58);
    out.push(91);
    proof {
        assert(out@ =~= old(out)@ + seq![
            44u8, 34u8, 100u8, 97u8, 116u8, 97u8, 34u8, 58u8, 91u8,
        ]);
    }
}

impl HogResult {
    /// The canonical stored form of this descriptor, ready to be
    /// written to a file.
    #[verifier::loop_isolation(false)]
    #[verifier::rlimit(100)]
    pub fn to_json(&self) -> (r: Vec<u8>)
        requires
            self.wf(),
        ensures
            r@ == render_of(*self),
    {
        let ghost dv = rows_view(self.data@);
        let mut out: Vec<u8> = Vec::new();
        push_lit_dims(&mut out);
        push_uint(&mut out, self.dimensions.0 as u64);
        out.push(44);
        push_uint(&mut out, self.dimensions.1 as u64);
        push_lit_cell(&mut out);
        push_uint(&mut out, self.cell_size as u64);
        push_lit_block(&mut out);
        push_uint(&mut out, self.block_size as u64);
        push_lit_data(&mut out);
        let ghost base = out@;
        let mut b: usize = 0;
        while b < self.data.len()
            invariant
                b <= self.data@.len(),
                out@ == base + data_items(dv.take(b as int)),
            decreases self.data@.len() - b,
        {
            if b > 0 {
                out.push(44);
            }
            push_row(&mut out, &self.data[b]);
            proof {
                assert(crate::feature_detect::hist_view(self.data@[b as int]) == dv[b as int]);
                if b == 0 {
                    assert(dv.take(1) =~= seq![dv[0]]);
                    assert(out@ =~= base + data_items(dv.take(b as int + 1)));
                } else {
                    assert(dv.take(b as int + 1).drop_last() =~= dv.take(b as int));
                    assert(dv.take(b as int + 1).last() == dv[b as int]);
                    assert(out@ =~= base + data_items(dv.take(b as int + 1)));
                }
            }
            b = b + 1;
        }
        out.push(93);
        out.push(125);
        proof {
            assert(dv.take(dv.len() as int) =~= dv);
            assert(out@ =~= render_of(*self));
        }
        out
    }
}

fn eat(s: &Vec<u8>, pos: usize, b: u8) -> (r: Result<usize, DescError>)
    requires
        pos <= s@.len(),
    ensures
        r matches Ok(p) ==> p == pos + 1 && pos < s@.len() && s@[pos as int] == b,
{
    if pos < s.len() && s[pos] == b {
        Ok(pos + 1)
    } else {
        Err(DescError::Malformed)
    }
}

#[verifier::loop_isolation(false)]
fn parse_uint(s: &Vec<u8>, pos: usize) -> (r: Option<(u64, usize)>)
    requires
        pos <= s@.len(),
    ensures
        r matches Some(vp) ==> {
            &&& pos < vp.1 <= s@.len()
            &&& vp.0 <= 9_999_999_999
            &&& s@.subrange(pos as int, vp.1 as int) == uint_digits(vp.0 as int)
            &&& (vp.1 == s@.len() || !is_digit(s@[vp.1 as int]))
        },
{
    if pos >= s.len() {
        return None;
    }
    let b0 = s[pos];
    if !(48 <= b0 && b0 <= 57) {
        return None;
    }
    if b0 == 48 {
        if pos + 1 < s.len() && 48 <= s[pos + 1] && s[pos + 1] <= 57 {
            return None;
        }
        proof {
            assert(s@.subrange(pos as int, pos as int + 1) =~= uint_digits(0));
        }
        return Some((0, pos + 1));
    }
    let mut v: u64 = (b0 - 48) as u64;
    let mut p: usize = pos + 1;
    proof {
        assert(s@.subrange(pos as int, p as int) =~= uint_digits(v as int));
    }
    while p < s.len() && 48 <= s[p] && s[p] <= 57
        invariant
            pos < p <= s@.len(),
            1 <= v <= 9_999_999_999,
            s@.subrange(pos as int, p as int) == uint_digits(v as int),
        decreases s@.len() - p,
    {
        if v > 999_999_999 {
            return None;
        }
        let d = s[p] - 48;
        let ghost oldv = v as int;
        v = v * 10 + d as u64;
        p = p + 1;
        proof {
            crate::mathq::lemma_const_div_mod(v as int, 10, oldv, d as int);
            assert(s@.subrange(pos as int, p as int) =~= s@.subrange(
                pos as int,
                p as int - 1,
            ).push(s@[p as int - 1]));
            assert(uint_digits(v as int) == uint_digits(oldv).push((48 + (v as int) % 10) as u8));
            assert(s@.subrange(pos as int, p as int) =~= uint_digits(v as int));
        }
    }
    Some((v, p))
}

#[verifier::loop_isolation(false)]
#[verifier::rlimit(80)]
fn parse_q(s: &Vec<u8>, pos: usize) -> (r: Result<(u64, usize), DescError>)
    requires
        pos <= s@.len(),
    ensures
        r matches Ok(vp) ==> {
            &&& vp.1 == pos + 8
            &&& vp.1 <= s@.len()
            &&& vp.0 <= 9_999_999
            &&& s@.subrange(pos as int, vp.1 as int) == q_digits(vp.0 as int)
        },
{
    if s.len() < 8 || pos > s.len() - 8 {
        return Err(DescError::Malformed);
    }
    let b0 = s[pos];
    let b1 = s[pos + 1];
    let b2 = s[pos + 2];
    let b3 = s[pos + 3];
    let b4 = s[pos + 4];
    let b5 = s[pos + 5];
    let b6 = s[pos + 6];
    let b7 = s[pos + 7];
    if !(48 <= b0 && b0 <= 57) || b1 != 46 || !(48 <= b2 && b2 <= 57) || !(48 <= b3 && b3 <= 57)
        || !(48 <= b4 && b4 <= 57) || !(48 <= b5 && b5 <= 57) || !(48 <= b6 && b6 <= 57)
        || !(48 <= b7 && b7 <= 57) {
        return Err(DescError::Malformed);
    }
    let d0 = (b0 - 48) as u64;
    let d2 = (b2 - 48) as u64;
    let d3 = (b3 - 48) as u64;
    let d4 = (b4 - 48) as u64;
    let d5 = (b5 - 48) as u64;
    let d6 = (b6 - 48) as u64;
    let d7 = (b7 - 48) as u64;
    let q: u64 = d0 * 1000000 + d2 * 100000 + d3 * 10000 + d4 * 1000 + d5 * 100 + d6 * 10 + d7;
    proof {
        let qi = q as int;
        let r1 = (d2 * 100000 + d3 * 10000 + d4 * 1000 + d5 * 100 + d6 * 10 + d7) as int;
        crate::mathq::lemma_const_div_mod(qi, 1000000, d0 as int, r1);
        let r2 = (d3 * 10000 + d4 * 1000 + d5 * 100 + d6 * 10 + d7) as int;
        crate::mathq::lemma_const_div_mod(qi, 100000, (d0 * 10 + d2) as int, r2);
        crate::mathq::lemma_const_div_mod(((d0 * 10 + d2)) as int, 10, d0 as int, d2 as int);
        let r3 = (d4 * 1000 + d5 * 100 + d6 * 10 + d7) as int;
        crate::mathq::lemma_const_div_mod(
            qi, 10000, (d0 * 100 + d2 * 10 + d3) as int, r3,
        );
        crate::mathq::lemma_const_div_mod(
            (d0 * 100 + d2 * 10 + d3) as int, 10, (d0 * 10 + d2) as int, d3 as int,
        );
        let r4 = (d5 * 100 + d6 * 10 + d7) as int;
        crate::mathq::lemma_const_div_mod(
            qi, 1000, (d0 * 1000 + d2 * 100 + d3 * 10 + d4) as int, r4,
        );
        crate::mathq::lemma_const_div_mod(
            (d0 * 1000 + d2 * 100 + d3 * 10 + d4) as int,
            10,
            (d0 * 100 + d2 * 10 + d3) as int,
            d4 as int,
        );
        let r5 = (d6 * 10 + d7) as int;
        crate::mathq::lemma_const_div_mod(
            qi, 100, (d0 * 10000 + d2 * 1000 + d3 * 100 + d4 * 10 + d5) as int, r5,
        );
        crate::mathq::lemma_const_div_mod(
            (d0 * 10000 + d2 * 1000 + d3 * 100 + d4 * 10 + d5) as int,
            10,
            (d0 * 1000 + d2 * 100 + d3 * 10 + d4) as int,
            d5 as int,
        );
        crate::mathq::lemma_const_div_mod(
            qi, 10, (d0 * 100000 + d2 * 10000 + d3 * 1000 + d4 * 100 + d5 * 10 + d6) as int,
            d7 as int,
        );
        crate::mathq::lemma_const_div_mod(
            (d0 * 100000 + d2 * 10000 + d3 * 1000 + d4 * 100 + d5 * 10 + d6) as int,
            10,
            (d0 * 10000 + d2 * 1000 + d3 * 100 + d4 * 10 + d5) as int,
            d6 as int,
        );
        assert(s@.subrange(pos as int, pos as int + 8) =~= q_digits(q as int));
    }
    Ok((q, pos + 8))
}

#[verifier::loop_isolation(false)]
fn parse_row(s: &Vec<u8>, pos: usize) -> (r: Result<(Vec<u64>, usize), DescError>)
    requires
        pos <= s@.len(),
    ensures
        r matches Ok(rp) ==> {
            &&& pos < rp.1 <= s@.len()
            &&& forall|j: int| 0 <= j < rp.0@.len() ==> #[trigger] rp.0@[j] <= 9_999_999
            &&& s@.subrange(pos as int, rp.1 as int) == row_bytes(
                crate::feature_detect::hist_view(rp.0),
            )
        },
{
    let mut cur = eat(s, pos, 91)?;
    let mut row: Vec<u64> = Vec::new();
    let first = parse_q(s, cur)?;
    row.push(first.0);
    cur = first.1;
    proof {
        let hv = crate::feature_detect::hist_view(row);
        assert(hv =~= seq![first.0 as int]);
        assert(row_items(hv) == q_digits(hv[0]));
        assert(s@.subrange(pos as int, cur as int) =~= seq![91u8] + row_items(hv));
    }
    while cur < s.len() && s[cur] == 44
        invariant
            pos < cur <= s@.len(),
            row@.len() >= 1,
            forall|j: int| 0 <= j < row@.len() ==> #[trigger] row@[j] <= 9_999_999,
            s@.subrange(pos as int, cur as int) == seq![91u8] + row_items(
                crate::feature_detect::hist_view(row),
            ),
        decreases s@.len() - cur,
    {
        let ghost oldhv = crate::feature_detect::hist_view(row);
        let next = parse_q(s, cur + 1)?;
        row.push(next.0);
        let ghost newcur = next.1;
        proof {
            let hv = crate::feature_detect::hist_view(row);
            assert(hv =~= oldhv.push(next.0 as int));
            assert(hv.drop_last() =~= oldhv);
            assert(hv.last() == next.0 as int);
            assert(row_items(hv) == row_items(oldhv) + seq![44u8] + q_digits(next.0 as int));
            assert(s@.subrange(pos as int, newcur as int) =~= s@.subrange(
                pos as int,
                cur as int,
            ) + seq![s@[cur as int]] + s@.subrange(cur as int + 1, newcur as int));
            assert(s@.subrange(pos as int, newcur as int) =~= seq![91u8] + row_items(hv));
        }
        cur = next.1;
    }
    let done = eat(s, cur, 93)?;
    proof {
        assert(s@.subrange(pos as int, done as int) =~= s@.subrange(pos as int, cur as int)
            + seq![93u8]);
        assert(s@.subrange(pos as int, done as int) =~= row_bytes(
            crate::feature_detect::hist_view(row),
        ));
    }
    Ok((row, done))
}

/// The stored bytes up to and including the opening bracket of the
/// `data` array.
pub open spec fn header_bytes(w: int, h: int, cs: int, bs: int) -> Seq<u8> {
    seq![
        123u8, 34u8, 100u8, 105u8, 109u8, 101u8, 110u8, 115u8, 105u8, 111u8, 110u8, 115u8,
        34u8, 58u8, 91u8,
    ] + uint_digits(w) + seq![44u8] + uint_digits(h) + seq![
        93u8, 44u8, 34u8, 99u8, 101u8, 108u8, 108u8, 95u8, 115u8, 105u8, 122u8, 101u8, 34u8,
        58u8,
    ] + uint_digits(cs) + seq![
        44u8, 34u8, 98u8, 108u8, 111u8, 99u8, 107u8, 95u8, 115u8, 105u8, 122u8, 101u8, 34u8,
        58u8,
    ] + uint_digits(bs) + seq![44u8, 34u8, 100u8, 97u8, 116u8, 97u8, 34u8, 58u8] + seq![91u8]
}

#[verifier::loop_isolation(false)]
#[verifier::rlimit(100)]
fn parse_header(s: &Vec<u8>) -> (r: Result<(u32, u32, u64, u64, usize), DescError>)
    ensures
        r matches Ok(t) ==> {
            &&& 0 < t.4 <= s@.len()
            &&& 1 <= t.2 <= 4096
            &&& 1 <= t.3 <= 16
            &&& s@.subrange(0, t.4 as int) == header_bytes(
                t.0 as int, t.1 as int, t.2 as int, t.3 as int,
            )
        },
{
    let mut pos: usize = 0;
    pos = eat(s, pos, 123)?;
    pos = eat(s, pos, 34)?;
    pos = eat(s, pos, 100)?;
    pos = eat(s, pos, 105)?;
    pos = eat(s, pos, 109)?;
    pos = eat(s, pos, 101)?;
    pos = eat(s, pos, 110)?;
    pos = eat(s, pos, 115)?;
    pos = eat(s, pos, 105)?;
    pos = eat(s, pos, 111)?;
    pos = eat(s, pos, 110)?;
    pos = eat(s, pos, 115)?;
    pos = eat(s, pos, 34)?;
    pos = eat(s, pos, 58)?;
    pos = eat(s, pos, 91)?;
    proof {
        assert(s@.subrange(0, 15) =~= seq![
            123u8, 34u8, 100u8, 105u8, 109u8, 101u8, 110u8, 115u8, 105u8, 111u8, 110u8, 115u8,
            34u8, 58u8, 91u8,
        ]);
    }
    let wv = match parse_uint(s, pos) {
        Some(x) => x,
        None => { return Err(DescError::Malformed) },
    };
    if wv.0 > 4294967295 {
        return Err(DescError::Malformed);
    }
    let w: u32 = wv.0 as u32;
    pos = wv.1;
    let ghost pre1 = s@.subrange(0, 15) + uint_digits(w as int);
    proof {
        assert(s@.subrange(0, pos as int) =~= pre1);
    }
    pos = eat(s, pos, 44)?;
    let hv = match parse_uint(s, pos) {
        Some(x) => x,
        None => { return Err(DescError::Malformed) },
    };
    if hv.0 > 4294967295 {
        return Err(DescError::Malformed);
    }
    let h: u32 = hv.0 as u32;
    let ghost pre2 = pre1 + seq![44u8] + uint_digits(h as int);
    proof {
        assert(s@.subrange(0, hv.1 as int) =~= pre2);
    }
    pos = hv.1;
    pos = eat(s, pos, 93)?;
    pos = eat(s, pos, 44)?;
    pos = eat(s, pos, 34)?;
    pos = eat(s, pos, 99)?;
    pos = eat(s, pos, 101)?;
    pos = eat(s, pos, 108)?;
    pos = eat(s, pos, 108)?;
    pos = eat(s, pos, 95)?;
    pos = eat(s, pos, 115)?;
    pos = eat(s, pos, 105)?;
    pos = eat(s, pos, 122)?;
    pos = eat(s, pos, 101)?;
    pos = eat(s, pos, 34)?;
    pos = eat(s, pos, 58)?;
    let ghost pre3 = pre2 + seq![
        93u8, 44u8, 34u8, 99u8, 101u8, 108u8, 108u8, 95u8, 115u8, 105u8, 122u8, 101u8, 34u8,
        58u8,
    ];
    proof {
        assert(s@.subrange(0, pos as int) =~= pre3);
    }
    let cv = match parse_uint(s, pos) {
        Some(x) => x,
        None => { return Err(DescError::Malformed) },
    };
    if cv.0 < 1 || cv.0 > 4096 {
        return Err(DescError::Malformed);
    }
    let ghost pre4 = pre3 + uint_digits(cv.0 as int);
    proof {
        assert(s@.subrange(0, cv.1 as int) =~= pre4);
    }
    pos = cv.1;
    pos = eat(s, pos, 44)?;
    pos = eat(s, pos, 34)?;
    pos = eat(s, pos, 98)?;
    pos = eat(s, pos, 108)?;
    pos = eat(s, pos, 111)?;
    pos = eat(s, pos, 99)?;
    pos = eat(s, pos, 107)?;
    pos = eat(s, pos, 95)?;
    pos = eat(s, pos, 115)?;
    pos = eat(s, pos, 105)?;
    pos = eat(s, pos, 122)?;
    pos = eat(s, pos, 101)?;
    pos = eat(s, pos, 34)?;
    pos = eat(s, pos, 58)?;
    let ghost pre5 = pre4 + seq![
        44u8, 34u8, 98u8, 108u8, 111u8, 99u8, 107u8, 95u8, 115u8, 105u8, 122u8, 101u8, 34u8,
        58u8,
    ];
    proof {
        assert(s@.subrange(0, pos as int) =~= pre5);
    }
    let bv = match parse_uint(s, pos) {
        Some(x) => x,
        None => { return Err(DescError::Malformed) },
    };
    if bv.0 < 1 || bv.0 > 16 {
        return Err(DescError::Malformed);
    }
    let ghost pre6 = pre5 + uint_digits(bv.0 as int);
    proof {
        assert(s@.subrange(0, bv.1 as int) =~= pre6);
    }
    pos = bv.1;
    pos = eat(s, pos, 44)?;
    pos = eat(s, pos, 34)?;
    pos = eat(s, pos, 100)?;
    pos = eat(s, pos, 97)?;
    pos = eat(s, pos, 116)?;
    pos = eat(s, pos, 97)?;
    pos = eat(s, pos, 34)?;
    pos = eat(s, pos, 58)?;
    pos = eat(s, pos, 91)?;
    proof {
        assert(s@.subrange(0, pos as int) =~= pre6 + seq![
            44u8, 34u8, 100u8, 97u8, 116u8, 97u8, 34u8, 58u8,
        ] + seq![91u8]);
        assert(s@.subrange(0, pos as int) =~= header_bytes(
            w as int, h as int, cv.0 as int, bv.0 as int,
        ));
    }
    Ok((w, h, cv.0, bv.0, pos))
}

#[verifier::loop_isolation(false)]
#[verifier::rlimit(100)]
fn parse_data(s: &Vec<u8>, start: usize, rowlen: usize) -> (r: Result<
    (Vec<Vec<u64>>, usize),
    DescError,
>)
    requires
        start <= s@.len(),
    ensures
        r matches Ok(dp) ==> {
            &&& start < dp.1 <= s@.len()
            &&& forall|b: int|
                0 <= b < dp.0@.len() ==> (#[trigger] dp.0@[b])@.len() == rowlen as int
            &&& forall|b: int, j: int|
                0 <= b < dp.0@.len() && 0 <= j < dp.0@[b]@.len() ==> #[trigger] dp.0@[b]@[j]
                    <= 9_999_999
            &&& s@.subrange(start as int, dp.1 as int) == data_items(rows_view(dp.0@))
                + seq![93u8]
        },
{
    let mut data: Vec<Vec<u64>> = Vec::new();
    let mut pos: usize = start;
    if pos < s.len() && s[pos] == 93 {
        pos = pos + 1;
        proof {
            assert(rows_view(data@) =~= Seq::<Seq<int>>::empty());
            assert(s@.subrange(start as int, pos as int) =~= data_items(rows_view(data@))
                + seq![93u8]);
        }
        return Ok((data, pos));
    }
    let rp = parse_row(s, pos)?;
    if rp.0.len() != rowlen {
        return Err(DescError::Malformed);
    }
    let ghost hv0 = crate::feature_detect::hist_view(rp.0);
    data.push(rp.0);
    proof {
        assert(rows_view(data@) =~= seq![hv0]);
        assert(data_items(rows_view(data@)) == row_bytes(hv0));
        assert(s@.subrange(start as int, rp.1 as int) =~= data_items(rows_view(data@)));
    }
    pos = rp.1;
    while pos < s.len() && s[pos] == 44
        invariant
            start < pos <= s@.len(),
            data@.len() >= 1,
            forall|b: int| 0 <= b < data@.len() ==> (#[trigger] data@[b])@.len() == rowlen as int,
            forall|b: int, j: int|
                0 <= b < data@.len() && 0 <= j < data@[b]@.len() ==> #[trigger] data@[b]@[j]
                    <= 9_999_999,
            s@.subrange(start as int, pos as int) == data_items(rows_view(data@)),
        decreases s@.len() - pos,
    {
        let rp2 = parse_row(s, pos + 1)?;
        if rp2.0.len() != rowlen {
            return Err(DescError::Malformed);
        }
        let ghost oldrv = rows_view(data@);
        let ghost hv2 = crate::feature_detect::hist_view(rp2.0);
        data.push(rp2.0);
        proof {
            assert(rows_view(data@) =~= oldrv.push(hv2));
            assert(rows_view(data@).drop_last() =~= oldrv);
            assert(rows_view(data@).last() == hv2);
            assert(data_items(rows_view(data@)) == data_items(oldrv) + seq![44u8] + row_bytes(
                hv2,
            ));
            assert(s@.subrange(start as int, rp2.1 as int) =~= s@.subrange(
                start as int,
                pos as int,
            ) + seq![s@[pos as int]] + s@.subrange(pos as int + 1, rp2.1 as int));
            assert(s@.subrange(start as int, rp2.1 as int) =~= data_items(rows_view(data@)));
        }
        pos = rp2.1;
    }
    pos = eat(s, pos, 93)?;
    proof {
        assert(s@.subrange(start as int, pos as int) =~= data_items(rows_view(data@))
            + seq![93u8]);
    }
    Ok((data, pos))
}

impl HogResult {
    /// Parses the canonical stored form back into a descriptor. Any
    /// result it accepts is structurally valid and re-renders to
    /// exactly the bytes it was read from; anything else is rejected
    /// as malformed.
    #[verifier::loop_isolation(false)]
    #[verifier::rlimit(100)]
    pub fn from_json(s: &Vec<u8>) -> (r: Result<HogResult, DescError>)
        ensures
            r matches Ok(d) ==> d.wf() && s@ == render_of(d),
    {
        let hdr = parse_header(s)?;
        let w: u32 = hdr.0;
        let h: u32 = hdr.1;
        let cs: usize = hdr.2 as usize;
        let bs: usize = hdr.3 as usize;
        proof {
            assert(9 * (bs as int) * (bs as int) <= 2304) by (nonlinear_arith)
                requires
                    1 <= bs as int <= 16,
            ;
        }
        let rowlen: usize = 9 * bs * bs;
        let ghost base = header_bytes(w as int, h as int, cs as int, bs as int);
        let dp = parse_data(s, hdr.4, rowlen)?;
        let data = dp.0;
        let pos = eat(s, dp.1, 125)?;
        if pos != s.len() {
            return Err(DescError::Malformed);
        }
        let cxq: u64 = (w as u64) / (cs as u64);
        let cyq: u64 = (h as u64) / (cs as u64);
        let expected: u64 = if cxq >= 1 && cyq >= 1 {
            proof {
                assert((cyq as int - 1) * (cxq as int - 1) <= 18446744073709551615int)
                    by (nonlinear_arith)
                    requires
                        1 <= cyq as int <= 4294967295,
                        1 <= cxq as int <= 4294967295,
                ;
            }
            (cyq - 1) * (cxq - 1)
        } else {
            0
        };
        if (data.len() as u64) != expected {
            return Err(DescError::Malformed);
        }
        let d = HogResult { dimensions: (w, h), cell_size: cs, block_size: bs, data };
        proof {
            assert(d.data@.len() == block_count(
                (d.dimensions.0 as int) / (d.cell_size as int),
                (d.dimensions.1 as int) / (d.cell_size as int),
            ));
            assert(d.wf());
            assert(s@.subrange(0, s@.len() as int) =~= s@);
            assert(s@ =~= base + (data_items(rows_view(d.data@)) + seq![93u8]) + seq![125u8]);
            assert(s@ =~= render_of(d));
        }
        Ok(d)
    }
}

proof fn lemma_uint_digits_props(n: int)
    requires
        0 <= n,
    ensures
        uint_digits(n).len() >= 1,
        forall|i: int| 0 <= i < uint_digits(n).len() ==> is_digit(#[trigger] uint_digits(n)[i]),
        uint_digits(n)[0] == 48 ==> n == 0,
    decreases n,
{
    if n < 10 {
    } else {
        lemma_uint_digits_props(n / 10);
        vstd::arithmetic::div_mod::lemma_mod_bound(n, 10);
        let u = uint_digits(n);
        let v = uint_digits(n / 10);
        assert(u == v.push((48 + n % 10) as u8));
        assert(u[0] == v[0]);
        lemma_div_is_ordered(10, n, 10);
        lemma_const_div_mod(10, 10, 1, 0);
        assert forall|i: int| 0 <= i < u.len() implies is_digit(#[trigger] u[i]) by {
            if i < v.len() {
                assert(u[i] == v[i]);
            } else {
                assert(u[i] == (48 + n % 10) as u8);
            }
        }
    }
}

proof fn lemma_uint_digits_inj(a: int, b: int)
    requires
        0 <= a,
        0 <= b,
        uint_digits(a) == uint_digits(b),
    ensures
        a == b,
    decreases a,
{
    lemma_uint_digits_props(a);
    lemma_uint_digits_props(b);
    if a < 10 && b < 10 {
        assert(uint_digits(a)[0] == uint_digits(b)[0]);
    } else if a < 10 {
        lemma_uint_digits_props(b / 10);
        assert(uint_digits(b).len() == uint_digits(b / 10).len() + 1);
        assert(false);
    } else if b < 10 {
        lemma_uint_digits_props(a / 10);
        assert(uint_digits(a).len() == uint_digits(a / 10).len() + 1);
        assert(false);
    } else {
        vstd::arithmetic::div_mod::lemma_mod_bound(a, 10);
        vstd::arithmetic::div_mod::lemma_mod_bound(b, 10);
        assert(uint_digits(a).last() == uint_digits(b).last());
        assert(uint_digits(a).last() == (48 + a % 10) as u8);
        assert(uint_digits(b).last() == (48 + b % 10) as u8);
        assert((48 + a % 10) as u8 as int == 48 + a % 10);
        assert((48 + b % 10) as u8 as int == 48 + b % 10);
        assert(a % 10 == b % 10);
        assert(uint_digits(a).drop_last() =~= uint_digits(a / 10));
        assert(uint_digits(b).drop_last() =~= uint_digits(b / 10));
        lemma_div_is_ordered(10, a, 10);
        lemma_const_div_mod(10, 10, 1, 0);
        lemma_uint_digits_inj(a / 10, b / 10);
        lemma_fundamental_div_mod(a, 10);
        lemma_fundamental_div_mod(b, 10);
    }
}

/// Two maximal digit runs read from the same place are the same run.
proof fn lemma_digit_run_unique(s: Seq<u8>, pos: int, v1: int, e1: int, v2: int, e2: int)
    requires
        0 <= pos,
        0 <= v1,
        0 <= v2,
        pos <= e1 <= s.len(),
        pos <= e2 <= s.len(),
        s.subrange(pos, e1) == uint_digits(v1),
        e1 == s.len() || !is_digit(s[e1]),
        s.subrange(pos, e2) == uint_digits(v2),
        e2 == s.len() || !is_digit(s[e2]),
    ensures
        v1 == v2,
        e1 == e2,
{
    lemma_uint_digits_props(v1);
    lemma_uint_digits_props(v2);
    if e1 < e2 {
        assert(s[e1] == s.subrange(pos, e2)[e1 - pos]);
        assert(is_digit(s[e1]));
        assert(false);
    }
    if e2 < e1 {
        assert(s[e2] == s.subrange(pos, e1)[e2 - pos]);
        assert(is_digit(s[e2]));
        assert(false);
    }
    lemma_uint_digits_inj(v1, v2);
}

proof fn lemma_q_digits_inj(q1: int, q2: int)
    requires
        0 <= q1 <= 9_999_999,
        0 <= q2 <= 9_999_999,
        q_digits(q1) == q_digits(q2),
    ensures
        q1 == q2,
{
    let d = q_digits(q1);
    assert(q_digits(q2)[0] == d[0] && q_digits(q2)[2] == d[2] && q_digits(q2)[3] == d[3]
        && q_digits(q2)[4] == d[4] && q_digits(q2)[5] == d[5] && q_digits(q2)[6] == d[6]
        && q_digits(q2)[7] == d[7]);
    lemma_q_component_bounds(q1);
    lemma_q_component_bounds(q2);
    assert(q1 / 1000000 == q2 / 1000000);
    assert((q1 / 100000) % 10 == (q2 / 100000) % 10);
    assert((q1 / 10000) % 10 == (q2 / 10000) % 10);
    assert((q1 / 1000) % 10 == (q2 / 1000) % 10);
    assert((q1 / 100) % 10 == (q2 / 100) % 10);
    assert((q1 / 10) % 10 == (q2 / 10) % 10);
    assert(q1 % 10 == q2 % 10);
    lemma_q_reconstruct(q1);
    lemma_q_reconstruct(q2);
}

/// Every printed component of a seven-digit value is a single digit.
proof fn lemma_q_component_bounds(q: int)
    requires
        0 <= q <= 9_999_999,
    ensures
        0 <= q / 1000000 <= 9,
        0 <= (q / 100000) % 10 <= 9,
        0 <= (q / 10000) % 10 <= 9,
        0 <= (q / 1000) % 10 <= 9,
        0 <= (q / 100) % 10 <= 9,
        0 <= (q / 10) % 10 <= 9,
        0 <= q % 10 <= 9,
{
    lemma_div_is_ordered(0, q, 1000000);
    lemma_div_is_ordered(q, 9_999_999, 1000000);
    lemma_const_div_mod(9_999_999, 1000000, 9, 999_999);
    vstd::arithmetic::div_mod::lemma_mod_bound(q / 100000, 10);
    vstd::arithmetic::div_mod::lemma_mod_bound(q / 10000, 10);
    vstd::arithmetic::div_mod::lemma_mod_bound(q / 1000, 10);
    vstd::arithmetic::div_mod::lemma_mod_bound(q / 100, 10);
    vstd::arithmetic::div_mod::lemma_mod_bound(q / 10, 10);
    vstd::arithmetic::div_mod::lemma_mod_bound(q, 10);
    lemma_div_is_ordered(0, q, 100000);
    lemma_div_is_ordered(0, q, 10000);
    lemma_div_is_ordered(0, q, 1000);
    lemma_div_is_ordered(0, q, 100);
    lemma_div_is_ordered(0, q, 10);
}

/// A value is recovered from its printed digit components.
proof fn lemma_q_reconstruct(q: int)
    requires
        0 <= q,
    ensures
        q == (q / 1000000) * 1000000 + ((q / 100000) % 10) * 100000 + ((q / 10000) % 10) * 10000
            + ((q / 1000) % 10) * 1000 + ((q / 100) % 10) * 100 + ((q / 10) % 10) * 10 + q % 10,
{
    lemma_fundamental_div_mod(q, 10);
    lemma_fundamental_div_mod(q / 10, 10);
    lemma_fundamental_div_mod(q / 100, 10);
    lemma_fundamental_div_mod(q / 1000, 10);
    lemma_fundamental_div_mod(q / 10000, 10);
    lemma_fundamental_div_mod(q / 100000, 10);
    lemma_div_is_ordered(0, q, 10);
    lemma_div_is_ordered(0, q / 10, 10);
    lemma_div_is_ordered(0, q / 100, 10);
    lemma_div_is_ordered(0, q / 1000, 10);
    lemma_div_is_ordered(0, q / 10000, 10);
    vstd::arithmetic::div_mod::lemma_div_denominator(q, 10, 10);
    vstd::arithmetic::div_mod::lemma_div_denominator(q, 100, 10);
    vstd::arithmetic::div_mod::lemma_div_denominator(q, 1000, 10);
    vstd::arithmetic::div_mod::lemma_div_denominator(q, 10000, 10);
    vstd::arithmetic::div_mod::lemma_div_denominator(q, 100000, 10);
    assert(10int * 10 == 100 && 100int * 10 == 1000 && 1000int * 10 == 10000 && 10000int * 10
        == 100000 && 100000int * 10 == 1000000) by (nonlinear_arith);
    assert(10 * (q / 10) == (q / 10) * 10) by (nonlinear_arith);
    assert(10 * (q / 100) == (q / 100) * 10) by (nonlinear_arith);
    assert(10 * (q / 1000) == (q / 1000) * 10) by (nonlinear_arith);
    assert(10 * (q / 10000) == (q / 10000) * 10) by (nonlinear_arith);
    assert(10 * (q / 100000) == (q / 100000) * 10) by (nonlinear_arith);
    assert(10 * (q / 1000000) == (q / 1000000) * 10) by (nonlinear_arith);
    assert(q == (q / 1000000) * 1000000 + ((q / 100000) % 10) * 100000 + ((q / 10000) % 10)
        * 10000 + ((q / 1000) % 10) * 1000 + ((q / 100) % 10) * 100 + ((q / 10) % 10) * 10 + q
        % 10) by (nonlinear_arith)
        requires
            q == 10 * (q / 10) + q % 10,
            q / 10 == 10 * (q / 100) + (q / 10) % 10,
            q / 100 == 10 * (q / 1000) + (q / 100) % 10,
            q / 1000 == 10 * (q / 10000) + (q / 1000) % 10,
            q / 10000 == 10 * (q / 100000) + (q / 10000) % 10,
            q / 100000 == 10 * (q / 1000000) + (q / 100000) % 10,
    ;
}

proof fn lemma_row_items_len(r: Seq<int>)
    ensures
        row_items(r).len() == if r.len() == 0 { 0int } else { 9 * r.len() - 1 },
    decreases r.len(),
{
    if r.len() <= 1 {
    } else {
        lemma_row_items_len(r.drop_last());
    }
}

#[verifier::rlimit(100)]
proof fn lemma_row_items_inj(r1: Seq<int>, r2: Seq<int>)
    requires
        r1.len() == r2.len(),
        forall|i: int| 0 <= i < r1.len() ==> 0 <= #[trigger] r1[i] <= 9_999_999,
        forall|i: int| 0 <= i < r2.len() ==> 0 <= #[trigger] r2[i] <= 9_999_999,
        row_items(r1) == row_items(r2),
    ensures
        r1 == r2,
    decreases r1.len(),
{
    if r1.len() == 0 {
        assert(r1 =~= r2);
    } else if r1.len() == 1 {
        lemma_q_digits_inj(r1[0], r2[0]);
        assert(r1 =~= r2);
    } else {
        let n = r1.len() as int;
        let plen = 9 * (n - 1) - 1;
        lemma_row_items_len(r1.drop_last());
        lemma_row_items_len(r2.drop_last());
        assert(row_items(r1) == row_items(r1.drop_last()) + seq![44u8] + q_digits(r1.last()));
        assert(row_items(r2) == row_items(r2.drop_last()) + seq![44u8] + q_digits(r2.last()));
        assert(row_items(r1).subrange(0, plen) =~= row_items(r1.drop_last()));
        assert(row_items(r2).subrange(0, plen) =~= row_items(r2.drop_last()));
        assert(row_items(r1).subrange(plen + 1, plen + 9) =~= q_digits(r1.last()));
        assert(row_items(r2).subrange(plen + 1, plen + 9) =~= q_digits(r2.last()));
        lemma_q_digits_inj(r1.last(), r2.last());
        lemma_row_items_inj(r1.drop_last(), r2.drop_last());
        assert forall|i: int| 0 <= i < r1.len() implies r1[i] == r2[i] by {
            if i < r1.len() - 1 {
                assert(r1[i] == r1.drop_last()[i]);
                assert(r2[i] == r2.drop_last()[i]);
            } else {
                assert(r1[i] == r1.last());
                assert(r2[i] == r2.last());
            }
        }
        assert(r1 =~= r2);
    }
}

proof fn lemma_data_items_len(rows: Seq<Seq<int>>, rl: int)
    requires
        1 <= rl,
        forall|b: int| 0 <= b < rows.len() ==> (#[trigger] rows[b]).len() == rl,
    ensures
        data_items(rows).len() == if rows.len() == 0 {
            0int
        } else {
            rows.len() * (9 * rl + 2) - 1
        },
    decreases rows.len(),
{
    if rows.len() == 0 {
    } else if rows.len() == 1 {
        lemma_row_items_len(rows[0]);
    } else {
        lemma_data_items_len(rows.drop_last(), rl);
        lemma_row_items_len(rows.last());
        assert((rows.len() - 1) * (9 * rl + 2) + (9 * rl + 2) == rows.len() * (9 * rl + 2))
            by (nonlinear_arith);
    }
}

proof fn lemma_data_items_inj(r1: Seq<Seq<int>>, r2: Seq<Seq<int>>, rl: int)
    requires
        1 <= rl,
        forall|b: int| 0 <= b < r1.len() ==> (#[trigger] r1[b]).len() == rl,
        forall|b: int| 0 <= b < r2.len() ==> (#[trigger] r2[b]).len() == rl,
        forall|b: int, i: int|
            0 <= b < r1.len() && 0 <= i < rl ==> 0 <= #[trigger] r1[b][i] <= 9_999_999,
        forall|b: int, i: int|
            0 <= b < r2.len() && 0 <= i < rl ==> 0 <= #[trigger] r2[b][i] <= 9_999_999,
        data_items(r1) == data_items(r2),
    ensures
        r1 == r2,
    decreases r1.len(),
{
    lemma_data_items_len(r1, rl);
    lemma_data_items_len(r2, rl);
    if r1.len() == 0 || r2.len() == 0 {
        assert(forall|n: int, k: int| 1 <= n && 11 <= k ==> #[trigger] (n * k) >= 11)
            by (nonlinear_arith);
        assert(r1.len() == 0 && r2.len() == 0);
        assert(r1 =~= r2);
    } else {
        let n1 = r1.len() as int;
        let n2 = r2.len() as int;
        assert(n1 == n2) by (nonlinear_arith)
            requires
                1 <= n1,
                1 <= n2,
                1 <= rl,
                n1 * (9 * rl + 2) - 1 == n2 * (9 * rl + 2) - 1,
        ;
        if n1 == 1 {
            lemma_row_items_len(r1[0]);
            lemma_row_items_len(r2[0]);
            assert(data_items(r1) == row_bytes(r1[0]));
            assert(data_items(r2) == row_bytes(r2[0]));
            assert(row_bytes(r1[0]) == seq![91u8] + row_items(r1[0]) + seq![93u8]);
            assert(row_bytes(r2[0]) == seq![91u8] + row_items(r2[0]) + seq![93u8]);
            assert(data_items(r1).subrange(1, 9 * rl) =~= row_items(r1[0]));
            assert(data_items(r2).subrange(1, 9 * rl) =~= row_items(r2[0]));
            lemma_row_items_inj(r1[0], r2[0]);
            assert(r1 =~= r2);
        } else {
            let plen = (n1 - 1) * (9 * rl + 2) - 1;
            lemma_data_items_len(r1.drop_last(), rl);
            lemma_data_items_len(r2.drop_last(), rl);
            assert(r1.last() == r1[n1 - 1] && r1.last().len() == rl);
            assert(r2.last() == r2[n2 - 1] && r2.last().len() == rl);
            lemma_row_items_len(r1.last());
            lemma_row_items_len(r2.last());
            assert(data_items(r1) == data_items(r1.drop_last()) + seq![44u8] + row_bytes(
                r1.last(),
            ));
            assert(data_items(r2) == data_items(r2.drop_last()) + seq![44u8] + row_bytes(
                r2.last(),
            ));
            assert(row_bytes(r1.last()) == seq![91u8] + row_items(r1.last()) + seq![93u8]);
            assert(row_bytes(r2.last()) == seq![91u8] + row_items(r2.last()) + seq![93u8]);
            assert(data_items(r1).subrange(0, plen) =~= data_items(r1.drop_last()));
            assert(data_items(r2).subrange(0, plen) =~= data_items(r2.drop_last()));
            assert(data_items(r1).subrange(plen + 2, plen + 2 + (9 * rl - 1)) =~= row_items(
                r1.last(),
            ));
            assert(data_items(r2).subrange(plen + 2, plen + 2 + (9 * rl - 1)) =~= row_items(
                r2.last(),
            ));
            lemma_row_items_inj(r1.last(), r2.last());
            lemma_data_items_inj(r1.drop_last(), r2.drop_last(), rl);
            assert forall|b: int| 0 <= b < r1.len() implies r1[b] == r2[b] by {
                if b < r1.len() - 1 {
                    assert(r1[b] == r1.drop_last()[b]);
                    assert(r2[b] == r2.drop_last()[b]);
                } else {
                    assert(r1[b] == r1.last());
                    assert(r2[b] == r2.last());
                }
            }
            assert(r1 =~= r2);
        }
    }
}

/// Where each field of a rendered descriptor sits among the bytes.
#[verifier::rlimit(100)]
proof fn lemma_render_segments(w: int, h: int, cs: int, bs: int, data: Seq<Seq<int>>)
    ensures
        ({
            let s = render_model(w, h, cs, bs, data);
            let lw = uint_digits(w).len() as int;
            let lh = uint_digits(h).len() as int;
            let lcs = uint_digits(cs).len() as int;
            let lbs = uint_digits(bs).len() as int;
            let ld = data_items(data).len() as int;
            &&& s.len() == 55 + lw + lh + lcs + lbs + ld
            &&& s.subrange(15, 15 + lw) == uint_digits(w)
            &&& s[15 + lw] == 44
            &&& s.subrange(16 + lw, 16 + lw + lh) == uint_digits(h)
            &&& s[16 + lw + lh] == 93
            &&& s.subrange(30 + lw + lh, 30 + lw + lh + lcs) == uint_digits(cs)
            &&& s[30 + lw + lh + lcs] == 44
            &&& s.subrange(44 + lw + lh + lcs, 44 + lw + lh + lcs + lbs) == uint_digits(bs)
            &&& s[44 + lw + lh + lcs + lbs] == 44
            &&& s.subrange(53 + lw + lh + lcs + lbs, 53 + lw + lh + lcs + lbs + ld)
                == data_items(data)
        }),
{
    let s = render_model(w, h, cs, bs, data);
    let lw = uint_digits(w).len() as int;
    let lh = uint_digits(h).len() as int;
    let lcs = uint_digits(cs).len() as int;
    let lbs = uint_digits(bs).len() as int;
    let ld = data_items(data).len() as int;
    assert(s.subrange(15, 15 + lw) =~= uint_digits(w));
    assert(s.subrange(16 + lw, 16 + lw + lh) =~= uint_digits(h));
    assert(s.subrange(30 + lw + lh, 30 + lw + lh + lcs) =~= uint_digits(cs));
    assert(s.subrange(44 + lw + lh + lcs, 44 + lw + lh + lcs + lbs) =~= uint_digits(bs));
    assert(s.subrange(53 + lw + lh + lcs + lbs, 53 + lw + lh + lcs + lbs + ld) =~= data_items(
        data,
    ));
}

/// Rendering is one-to-one on valid descriptors: two descriptors with
/// the same stored form agree on every field. Together with the
/// parser's contract this pins the stored-form round trip: a parse
/// that accepts the rendering of a valid descriptor returns that very
/// descriptor.
#[verifier::rlimit(100)]
pub proof fn lemma_render_injective(
    w1: int,
    h1: int,
    cs1: int,
    bs1: int,
    d1: Seq<Seq<int>>,
    w2: int,
    h2: int,
    cs2: int,
    bs2: int,
    d2: Seq<Seq<int>>,
)
    requires
        0 <= w1,
        0 <= h1,
        1 <= cs1,
        1 <= bs1,
        0 <= w2,
        0 <= h2,
        1 <= cs2,
        1 <= bs2,
        forall|b: int| 0 <= b < d1.len() ==> (#[trigger] d1[b]).len() == 9 * bs1 * bs1,
        forall|b: int| 0 <= b < d2.len() ==> (#[trigger] d2[b]).len() == 9 * bs2 * bs2,
        forall|b: int, i: int|
            0 <= b < d1.len() && 0 <= i < d1[b].len() ==> 0 <= #[trigger] d1[b][i] <= 9_999_999,
        forall|b: int, i: int|
            0 <= b < d2.len() && 0 <= i < d2[b].len() ==> 0 <= #[trigger] d2[b][i] <= 9_999_999,
        render_model(w1, h1, cs1, bs1, d1) == render_model(w2, h2, cs2, bs2, d2),
    ensures
        w1 == w2,
        h1 == h2,
        cs1 == cs2,
        bs1 == bs2,
        d1 == d2,
{
    let s = render_model(w1, h1, cs1, bs1, d1);
    lemma_render_segments(w1, h1, cs1, bs1, d1);
    lemma_render_segments(w2, h2, cs2, bs2, d2);
    let lw1 = uint_digits(w1).len() as int;
    let lw2 = uint_digits(w2).len() as int;
    lemma_digit_run_unique(s, 15, w1, 15 + lw1, w2, 15 + lw2);
    let lw = lw1;
    let lh1 = uint_digits(h1).len() as int;
    let lh2 = uint_digits(h2).len() as int;
    lemma_digit_run_unique(s, 16 + lw, h1, 16 + lw + lh1, h2, 16 + lw + lh2);
    let lh = lh1;
    let lcs1 = uint_digits(cs1).len() as int;
    let lcs2 = uint_digits(cs2).len() as int;
    lemma_digit_run_unique(
        s, 30 + lw + lh, cs1, 30 + lw + lh + lcs1, cs2, 30 + lw + lh + lcs2,
    );
    let lcs = lcs1;
    let lbs1 = uint_digits(bs1).len() as int;
    let lbs2 = uint_digits(bs2).len() as int;
    lemma_digit_run_unique(
        s,
        44 + lw + lh + lcs,
        bs1,
        44 + lw + lh + lcs + lbs1,
        bs2,
        44 + lw + lh + lcs + lbs2,
    );
    let lbs = lbs1;
    let ld1 = data_items(d1).len() as int;
    let ld2 = data_items(d2).len() as int;
    assert(ld1 == ld2);
    assert(data_items(d1) == data_items(d2));
    let rl = 9 * bs1 * bs1;
    assert(1 <= rl) by (nonlinear_arith)
        requires
            1 <= bs1,
            rl == 9 * bs1 * bs1,
    ;
    lemma_data_items_inj(d1, d2, rl);
}

/// The stored-form round trip: two valid descriptors with the same
/// stored form agree on every field, so a parse that accepts the
/// rendering of a valid descriptor (which re-renders to the same
/// bytes, by its contract) reproduces that descriptor exactly.
pub proof fn lemma_round_trip_fields(d: HogResult, d2: HogResult)
    requires
        d.wf(),
        d2.wf(),
        render_of(d2) == render_of(d),
    ensures
        d2.dimensions == d.dimensions,
        d2.cell_size == d.cell_size,
        d2.block_size == d.block_size,
        rows_view(d2.data@) == rows_view(d.data@),
{
    let r1 = rows_view(d.data@);
    let r2 = rows_view(d2.data@);
    assert forall|b: int| 0 <= b < r1.len() implies (#[trigger] r1[b]).len() == 9 * (
    d.block_size as int) * (d.block_size as int) by {
        assert(r1[b] == crate::feature_detect::hist_view(d.data@[b]));
    }
    assert forall|b: int| 0 <= b < r2.len() implies (#[trigger] r2[b]).len() == 9 * (
    d2.block_size as int) * (d2.block_size as int) by {
        assert(r2[b] == crate::feature_detect::hist_view(d2.data@[b]));
    }
    assert forall|b: int, i: int|
        0 <= b < r1.len() && 0 <= i < r1[b].len() implies 0 <= #[trigger] r1[b][i]
        <= 9_999_999 by {
        assert(r1[b] == crate::feature_detect::hist_view(d.data@[b]));
        assert(r1[b][i] == d.data@[b]@[i] as int);
    }
    assert forall|b: int, i: int|
        0 <= b < r2.len() && 0 <= i < r2[b].len() implies 0 <= #[trigger] r2[b][i]
        <= 9_999_999 by {
        assert(r2[b] == crate::feature_detect::hist_view(d2.data@[b]));
        assert(r2[b][i] == d2.data@[b]@[i] as int);
    }
    lemma_render_injective(
        d.dimensions.0 as int,
        d.dimensions.1 as int,
        d.cell_size as int,
        d.block_size as int,
        r1,
        d2.dimensions.0 as int,
        d2.dimensions.1 as int,
        d2.cell_size as int,
        d2.block_size as int,
        r2,
    );
}

} // verus!