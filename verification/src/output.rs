//! Rendering an assignment into the required textual layout: the number of
//! committed plans, then per plan the project name line and the line of its
//! contributors' names in slot order. No plans renders as an empty text.

use vstd::prelude::*;
use vstd::string::StringExecFns;

use crate::schedule::Plan;

verus! {

/// The decimal digit character for `d`.
pub open spec fn digit_char(d: nat) -> char {
    if d == 0 {
        '0'
    } else if d == 1 {
        '1'
    } else if d == 2 {
        '2'
    } else if d == 3 {
        '3'
    } else if d == 4 {
        '4'
    } else if d == 5 {
        '5'
    } else if d == 6 {
        '6'
    } else if d == 7 {
        '7'
    } else if d == 8 {
        '8'
    } else {
        '9'
    }
}

/// The decimal digits of `n`, most significant first, without leading
/// zeroes (a single `0` for zero).
pub open spec fn dec_digits(n: nat) -> Seq<char>
    decreases n,
{
    if n < 10 {
        seq![digit_char(n)]
    } else {
        dec_digits(n / 10) + seq![digit_char(n % 10)]
    }
}

/// The one-character string for digit `d`.
fn digit_str(d: usize) -> (r: &'static str)
    requires
        d < 10,
    ensures
        r@ =~= seq![digit_char(d as nat)],
{
    proof {
        reveal_strlit("0");
        reveal_strlit("1");
        reveal_strlit("2");
        reveal_strlit("3");
        reveal_strlit("4");
        reveal_strlit("5");
        reveal_strlit("6");
        reveal_strlit("7");
        reveal_strlit("8");
        reveal_strlit("9");
    }
    if d == 0 {
        "0"
    } else if d == 1 {
        "1"
    } else if d == 2 {
        "2"
    } else if d == 3 {
        "3"
    } else if d == 4 {
        "4"
    } else if d == 5 {
        "5"
    } else if d == 6 {
        "6"
    } else if d == 7 {
        "7"
    } else if d == 8 {
        "8"
    } else {
        "9"
    }
}

/// Renders `n` in decimal.
pub fn to_dec_string(n: usize) -> (r: String)
    ensures
        r@ == dec_digits(n as nat),
    decreases n,
{
    if n < 10 {
        let r = digit_str(n).to_owned();
        proof {
            assert(r@ =~= dec_digits(n as nat));
        }
        r
    } else {
        let mut s = to_dec_string(n / 10);
        s.append(digit_str(n % 10));
        proof {
            assert(s@ =~= dec_digits(n as nat));
        }
        s
    }
}

/// The space-joined names, in order.
pub open spec fn join_names(names: Seq<Seq<char>>) -> Seq<char>
    decreases names.len(),
{
    if names.len() == 0 {
        Seq::empty()
    } else if names.len() == 1 {
        names[0]
    } else {
        join_names(names.drop_last()) + seq![' '] + names.last()
    }
}

/// The two lines of one plan: the project name, then the contributors'
/// names joined by single spaces, each line ended by a newline.
pub open spec fn plan_text(p: Plan) -> Seq<char> {
    p.project_name@ + seq!['\n'] + join_names(p.contributors.deep_view()) + seq!['\n']
}

/// The plan blocks, in order.
pub open spec fn plans_text(plans: Seq<Plan>) -> Seq<char>
    decreases plans.len(),
{
    if plans.len() == 0 {
        Seq::empty()
    } else {
        plans_text(plans.drop_last()) + plan_text(plans.last())
    }
}

/// The whole solution text: empty when no plan was committed, else the plan
/// count line followed by each plan's two lines.
pub open spec fn solution_text(plans: Seq<Plan>) -> Seq<char> {
    if plans.len() == 0 {
        Seq::empty()
    } else {
        dec_digits(plans.len()) + seq!['\n'] + plans_text(plans)
    }
}

/// The position in `s` of its least token; the earliest such position on a
/// tie.
pub open spec fn least_pos(s: Seq<usize>) -> int
    decreases s.len(),
{
    if s.len() <= 1 {
        0
    } else {
        let p = least_pos(s.drop_last());
        if s.last() < s[p] {
            s.len() - 1
        } else {
            p
        }
    }
}

pub proof fn lemma_least_pos_in_range(s: Seq<usize>)
    requires
        s.len() >= 1,
    ensures
        0 <= least_pos(s) < s.len(),
    decreases s.len(),
{
    if s.len() > 1 {
        lemma_least_pos_in_range(s.drop_last());
    }
}

/// The tokens of `s` in ascending numeric order: repeatedly pull out the
/// least remaining one.
pub open spec fn asc_order(s: Seq<usize>) -> Seq<usize>
    decreases s.len(),
    via asc_order_decreases
{
    if s.len() == 0 {
        Seq::empty()
    } else {
        let p = least_pos(s);
        seq![s[p]] + asc_order(s.remove(p))
    }
}

#[via_fn]
proof fn asc_order_decreases(s: Seq<usize>) {
    if s.len() > 0 {
        lemma_least_pos_in_range(s);
    }
}

/// The hyphen-joined decimal renderings of `toks`, in order.
pub open spec fn hyphen_join(toks: Seq<usize>) -> Seq<char>
    decreases toks.len(),
{
    if toks.len() == 0 {
        Seq::empty()
    } else if toks.len() == 1 {
        dec_digits(toks[0] as nat)
    } else {
        hyphen_join(toks.drop_last()) + seq!['-'] + dec_digits(toks.last() as nat)
    }
}

/// The canonical fingerprint of an item set: its tokens sorted ascending,
/// rendered in decimal and joined by hyphens. A content fingerprint only;
/// selection does not depend on it.
pub fn set_fingerprint(tokens: &Vec<usize>) -> (r: String)
    ensures
        r@ == hyphen_join(asc_order(tokens@)),
{
    let n = tokens.len();
    let mut work: Vec<usize> = Vec::new();
    let mut i: usize = 0;
    while i < n
        invariant
            i <= n,
            n == tokens@.len(),
            work@ == tokens@.take(i as int),
        decreases n - i,
    {
        work.push(tokens[i]);
        i = i + 1;
        proof {
            assert(work@ =~= tokens@.take(i as int));
        }
    }
    proof {
        assert(tokens@.take(n as int) =~= tokens@);
    }
    let ghost full = asc_order(tokens@);
    let mut sorted: Vec<usize> = Vec::new();
    proof {
        assert(sorted@ + asc_order(work@) =~= full);
    }
    while work.len() > 0
        invariant
            sorted@ + asc_order(work@) == full,
        decreases work@.len(),
    {
        let m = work.len();
        let mut p: usize = 0;
        let mut q: usize = 1;
        proof {
            assert(work@.take(1).len() == 1);
        }
        while q < m
            invariant
                1 <= q <= m,
                p < q,
                m == work@.len(),
                p as int == least_pos(work@.take(q as int)),
            decreases m - q,
        {
            proof {
                let pre = work@.take(q as int);
                let cur = work@.take(q as int + 1);
                assert(cur.drop_last() =~= pre);
                assert(cur.last() == work@[q as int]);
                lemma_least_pos_in_range(pre);
                assert(cur[p as int] == work@[p as int]);
            }
            if work[q] < work[p] {
                p = q;
            }
            q = q + 1;
        }
        proof {
            assert(work@.take(m as int) =~= work@);
            lemma_least_pos_in_range(work@);
        }
        let ghost pre_work = work@;
        let ghost pre_sorted = sorted@;
        let chosen = work.remove(p);
        sorted.push(chosen);
        proof {
            assert(asc_order(pre_work) == seq![pre_work[p as int]] + asc_order(
                pre_work.remove(p as int),
            ));
            assert(sorted@ + asc_order(work@) =~= pre_sorted + asc_order(pre_work));
        }
    }
    proof {
        assert(asc_order(work@).len() == 0);
        assert(sorted@ =~= full);
    }
    let mut out = String::new();
    let ghost sv = sorted@;
    let k = sorted.len();
    i = 0;
    proof {
        assert(out@ =~= hyphen_join(sv.take(0)));
    }
    while i < k
        invariant
            i <= k,
            k == sv.len(),
            sv == sorted@,
            out@ == hyphen_join(sv.take(i as int)),
        decreases k - i,
    {
        if i > 0 {
            out.append("-");
            proof {
                reveal_strlit("-");
                assert("-"@ =~= seq!['-']);
            }
        }
        let d = to_dec_string(sorted[i]);
        out.append(d.as_str());
        i = i + 1;
        proof {
            let cur = sv.take(i as int);
            assert(cur.drop_last() =~= sv.take(i - 1));
            assert(cur.last() == sv[i - 1]);
            if i == 1 {
                assert(hyphen_join(cur) == dec_digits(cur[0] as nat));
            }
            assert(out@ =~= hyphen_join(cur));
        }
    }
    proof {
        assert(sv.take(k as int) =~= sv);
    }
    out
}

/// Renders a solution: the number of committed plans, then for each plan
/// the project's name and the space-joined contributor names in slot order.
/// Zero plans render as the empty string.
pub fn solution_to_string(r: Vec<Plan>) -> (out: String)
    ensures
        out@ == solution_text(r@),
{
    let l = r.len();
    if l == 0 {
        return String::new();
    }
    let mut out = to_dec_string(l);
    out.append("\n");
    proof {
        reveal_strlit("\n");
        assert("\n"@ =~= seq!['\n']);
        assert(r@.take(0) =~= Seq::<Plan>::empty());
        assert(out@ =~= dec_digits(l as nat) + seq!['\n'] + plans_text(r@.take(0)));
    }
    let mut i: usize = 0;
    while i < l
        invariant
            i <= l,
            l == r@.len(),
            out@ == dec_digits(l as nat) + seq!['\n'] + plans_text(r@.take(i as int)),
        decreases l - i,
    {
        let plan = &r[i];
        let ghost base = out@;
        out.append(plan.project_name.as_str());
        out.append("\n");
        proof {
            reveal_strlit("\n");
            assert("\n"@ =~= seq!['\n']);
        }
        let ghost cds = plan.contributors.deep_view();
        let ghost base2 = out@;
        let m = plan.contributors.len();
        let mut j: usize = 0;
        proof {
            assert(join_names(cds.take(0)) =~= Seq::<char>::empty());
            assert(out@ =~= base2 + join_names(cds.take(0)));
        }
        while j < m
            invariant
                j <= m,
                m == plan.contributors@.len(),
                cds == plan.contributors.deep_view(),
                out@ == base2 + join_names(cds.take(j as int)),
            decreases m - j,
        {
            if j > 0 {
                out.append(" ");
                proof {
                    reveal_strlit(" ");
                    assert(" "@ =~= seq![' ']);
                }
            }
            out.append(plan.contributors[j].as_str());
            j = j + 1;
            proof {
                let cur = cds.take(j as int);
                assert(cur.drop_last() =~= cds.take(j - 1));
                assert(cur.last() == cds[j - 1]);
                assert(cds[j - 1] == plan.contributors@[j - 1]@);
                if j == 1 {
                    assert(join_names(cur) == cur[0]);
                    assert(out@ =~= base2 + join_names(cur));
                } else {
                    assert(join_names(cur) == join_names(cds.take(j - 1)) + seq![' '] + cds[j - 1]);
                    assert(out@ =~= base2 + join_names(cur));
                }
            }
        }
        out.append("\n");
        i = i + 1;
        proof {
            reveal_strlit("\n");
            assert("\n"@ =~= seq!['\n']);
            assert(cds.take(m as int) =~= cds);
            let cur = r@.take(i as int);
            assert(cur.drop_last() =~= r@.take(i - 1));
            assert(cur.last() == r@[i - 1]);
            assert(r@[i - 1] == *plan);
            assert(plan_text(*plan) == plan.project_name@ + seq!['\n'] + join_names(cds) + seq![
                '\n',
            ]);
            assert(out@ =~= dec_digits(l as nat) + seq!['\n'] + plans_text(cur));
        }
    }
    proof {
        assert(r@.take(l as int) =~= r@);
    }
    out
}

} // verus!
