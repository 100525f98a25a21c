use vstd::prelude::*;

use crate::record::SequenceRecord;

verus! {

/// The decimal digits of `n`, most significant first, as ASCII bytes.
pub open spec fn dec_digits(n: nat) -> Seq<u8>
    decreases n,
{
    if n < 10 {
        seq![(48 + n) as u8]
    } else {
        dec_digits(n / 10).push((48 + n % 10) as u8)
    }
}

/// The ASCII bytes of `": Steps: "`.
pub open spec fn lit_steps() -> Seq<u8> {
    seq![58u8, 32u8, 83u8, 116u8, 101u8, 112u8, 115u8, 58u8, 32u8]
}

/// The ASCII bytes of `", Numbers: ["`.
pub open spec fn lit_numbers() -> Seq<u8> {
    seq![44u8, 32u8, 78u8, 117u8, 109u8, 98u8, 101u8, 114u8, 115u8, 58u8, 32u8, 91u8]
}

/// The values of a visited sequence as a comma-separated decimal list.
pub open spec fn render_values(s: Seq<u64>) -> Seq<u8>
    decreases s.len(),
{
    if s.len() == 0 {
        Seq::empty()
    } else if s.len() == 1 {
        dec_digits(s[0] as nat)
    } else {
        dec_digits(s[0] as nat) + seq![44u8, 32u8] + render_values(s.drop_first())
    }
}

/// One output line: `<input>: Steps: <steps>, Numbers: [<values>]` and a
/// newline.
pub open spec fn render_line(rec: SequenceRecord) -> Seq<u8> {
    dec_digits(rec.initial as nat) + lit_steps() + dec_digits(rec.steps as nat) + lit_numbers()
        + render_values(rec.visited@) + seq![93u8, 10u8]
}

/// The whole report, one line per record, in the records' order.
pub open spec fn render_report_spec(s: Seq<SequenceRecord>) -> Seq<u8>
    decreases s.len(),
{
    if s.len() == 0 {
        Seq::empty()
    } else {
        render_line(s[0]) + render_report_spec(s.drop_first())
    }
}

proof fn lemma_values_take(s: Seq<u64>, j: int)
    requires
        0 <= j < s.len(),
    ensures
        render_values(s.take(j + 1)) == if j == 0 {
            dec_digits(s[0] as nat)
        } else {
            render_values(s.take(j)) + seq![44u8, 32u8] + dec_digits(s[j] as nat)
        },
    decreases j,
{
    if j == 0 {
        assert(s.take(1) =~= seq![s[0]]);
    } else {
        let t = s.take(j + 1);
        assert(t.len() >= 2);
        assert(t.drop_first() =~= s.drop_first().take(j));
        lemma_values_take(s.drop_first(), j - 1);
        assert(s.drop_first().take(j - 1) =~= s.take(j).drop_first());
        if j == 1 {
            assert(s.take(1) =~= seq![s[0]]);
            assert(render_values(t) == dec_digits(s[0] as nat) + seq![44u8, 32u8] + dec_digits(
                s[1] as nat,
            ));
        } else {
            assert(s.take(j).len() >= 2);
            assert(render_values(s.take(j)) == dec_digits(s[0] as nat) + seq![44u8, 32u8]
                + render_values(s.take(j).drop_first()));
            assert(render_values(t) =~= render_values(s.take(j)) + seq![44u8, 32u8] + dec_digits(
                s[j] as nat,
            ));
        }
    }
}

proof fn lemma_report_take(s: Seq<SequenceRecord>, i: int)
    requires
        0 <= i < s.len(),
    ensures
        render_report_spec(s.take(i + 1)) == render_report_spec(s.take(i)) + render_line(s[i]),
    decreases i,
{
    if i == 0 {
        let t = seq![s[0]];
        assert(s.take(1) =~= t);
        assert(t.drop_first() =~= Seq::<SequenceRecord>::empty());
        assert(render_report_spec(Seq::<SequenceRecord>::empty()) == Seq::<u8>::empty());
        assert(render_report_spec(t) == render_line(s[0]) + Seq::<u8>::empty());
        assert(render_line(s[0]) + Seq::<u8>::empty() =~= render_line(s[0]));
        assert(s.take(0) =~= Seq::<SequenceRecord>::empty());
        assert(render_report_spec(s.take(0)) + render_line(s[0]) =~= render_line(s[0]));
    } else {
        let t = s.take(i + 1);
        assert(t[0] == s[0]);
        assert(t.drop_first() =~= s.drop_first().take(i));
        lemma_report_take(s.drop_first(), i - 1);
        assert(s.drop_first().take(i - 1) =~= s.take(i).drop_first());
        assert(s.drop_first()[i - 1] == s[i]);
        assert(s.take(i)[0] == s[0]);
        assert(render_report_spec(s.take(i)) == render_line(s[0]) + render_report_spec(
            s.take(i).drop_first(),
        ));
        assert(render_report_spec(t) =~= render_report_spec(s.take(i)) + render_line(s[i]));
    }
}

/// Appends the decimal digits of `n`.
pub fn push_decimal(out: &mut Vec<u8>, n: u64)
    ensures
        final(out)@ == old(out)@ + dec_digits(n as nat),
    decreases n,
{
    if n < 10 {
        out.push(48 + n as u8);
        proof {
            assert(old(out)@.push((48 + n as nat) as u8) =~= old(out)@ + dec_digits(n as nat));
        }
    } else {
        push_decimal(out, n / 10);
        out.push(48 + (n % 10) as u8);
        proof {
            assert((old(out)@ + dec_digits((n / 10) as nat)).push((48 + n as nat % 10) as u8) =~= old(
                out,
            )@ + dec_digits(n as nat));
        }
    }
}

/// Serializes the report: one line per record, in the records' order, in the
/// form `<input>: Steps: <steps>, Numbers: [<values>]`.
#[verifier::rlimit(100)]
pub fn render_report(rep: &Vec<SequenceRecord>) -> (out: Vec<u8>)
    ensures
        out@ == render_report_spec(rep@),
{
    let mut out: Vec<u8> = Vec::new();
    let mut i: usize = 0;
    while i < rep.len()
        invariant
            i <= rep@.len(),
            out@ == render_report_spec(rep@.take(i as int)),
        decreases rep@.len() - i,
    {
        let ghost line_start = out@;
        let rec = &rep[i];
        push_decimal(&mut out, rec.initial);
        out.push(58);
        out.push(32);
        out.push(83);
        out.push(116);
        out.push(101);
        out.push(112);
        out.push(115);
        out.push(58);
        out.push(32);
        proof {
            assert(out@ =~= line_start + dec_digits(rec.initial as nat) + lit_steps());
        }
        push_decimal(&mut out, rec.steps);
        out.push(44);
        out.push(32);
        out.push(78);
        out.push(117);
        out.push(109);
        out.push(98);
        out.push(101);
        out.push(114);
        out.push(115);
        out.push(58);
        out.push(32);
        out.push(91);
        let ghost values_start = out@;
        proof {
            assert(values_start =~= line_start + dec_digits(rec.initial as nat) + lit_steps()
                + dec_digits(rec.steps as nat) + lit_numbers());
        }
        let v = &rec.visited;
        let mut j: usize = 0;
        while j < v.len()
            invariant
                j <= v@.len(),
                out@ == values_start + render_values(v@.take(j as int)),
            decreases v@.len() - j,
        {
            if j > 0 {
                out.push(44);
                out.push(32);
            }
            push_decimal(&mut out, v[j]);
            proof {
                lemma_values_take(v@, j as int);
                if j == 0 {
                    assert(v@.take(0) =~= Seq::<u64>::empty());
                    assert(out@ =~= values_start + render_values(v@.take(1)));
                } else {
                    assert(out@ =~= values_start + render_values(v@.take(j + 1)));
                }
            }
            j = j + 1;
        }
        out.push(93);
        out.push(10);
        proof {
            assert(v@.take(v@.len() as int) =~= v@);
            lemma_report_take(rep@, i as int);
            assert(out@ =~= line_start + render_line(rep@[i as int]));
            assert(out@ =~= render_report_spec(rep@.take(i + 1)));
        }
        i = i + 1;
    }
    proof {
        assert(rep@.take(rep@.len() as int) =~= rep@);
    }
    out
}

} // verus!
