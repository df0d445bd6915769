use vstd::prelude::*;
use crate::clock::{decimal, push_char, push_decimal};
use crate::findings::{Finding, Rule};

verus! {

// The result of the analytics stage: the findings of every check, joined in
// the checks' fixed order and numbered `k6/{rule}#{n}` from 1 in that order.

/// A finding as the stage reports it: its rule code, its id, the position of
/// the record it is about (`None` for a feed-wide finding) and its observed
/// value, if any.
#[derive(Debug, Clone)]
pub struct Notice {
    pub rule_id: String,
    pub id: String,
    pub record: Option<usize>,
    pub observed: Option<String>,
}

/// The observed value of a notice, as text.
pub open spec fn observed_text(n: Notice) -> Option<Seq<char>> {
    match n.observed {
        Some(o) => Some(o@),
        None => None,
    }
}

/// The notices of the stage, in order.
#[derive(Debug)]
pub struct K6Result {
    pub notices: Vec<Notice>,
}

/// The id of the `n`-th notice (from 1) of rule `rule`: `k6/{rule}#{n}`.
pub open spec fn notice_id(rule: Seq<char>, n: nat) -> Seq<char> {
    seq!['k', '6', '/'] + rule + seq!['#'] + decimal(n)
}

/// The notices of the checks, one list per check in order, joined.
pub open spec fn joined(parts: Seq<Vec<Notice>>) -> Seq<Notice>
    decreases parts.len(),
{
    if parts.len() == 0 {
        Seq::empty()
    } else {
        joined(parts.drop_last()) + parts.last()@
    }
}

/// `r` holds the notices of `all`, in order, each numbered by its position.
pub open spec fn numbered(all: Seq<Notice>, r: Seq<Notice>) -> bool {
    &&& r.len() == all.len()
    &&& forall|i: int| 0 <= i < r.len() ==> (#[trigger] r[i]).rule_id@ == all[i].rule_id@
        && r[i].record == all[i].record && observed_text(r[i]) == observed_text(all[i])
        && r[i].id@ == notice_id(all[i].rule_id@, (i + 1) as nat)
}

fn number(rule_id: &String, n: u64) -> (r: String)
    ensures
        r@ == notice_id(rule_id@, n as nat),
{
    let mut s = String::new();
    s.append("k6/");
    s.append(rule_id.as_str());
    push_char(&mut s, '#');
    push_decimal(&mut s, n);
    proof {
        reveal_strlit("k6/");
        assert(s@ =~= notice_id(rule_id@, n as nat));
    }
    s
}

/// Joins the notices of the checks, given in the checks' fixed order, and
/// numbers them `k6/{rule}#{n}` from 1 in that order.
pub fn number_notices(parts: Vec<Vec<Notice>>) -> (r: K6Result)
    requires
        joined(parts@).len() < u64::MAX,
    ensures
        numbered(joined(parts@), r.notices@),
{
    let mut out: Vec<Notice> = Vec::new();
    let mut p: usize = 0;
    while p < parts.len()
        invariant
            p <= parts@.len(),
            joined(parts@).len() < u64::MAX,
            numbered(joined(parts@.take(p as int)), out@),
        decreases parts@.len() - p,
    {
        let part = &parts[p];
        let ghost before = joined(parts@.take(p as int));
        proof {
            assert(parts@.take(p + 1).drop_last() =~= parts@.take(p as int));
            lemma_joined_prefix_len(parts@, p as int + 1);
        }
        let mut k: usize = 0;
        while k < part.len()
            invariant
                k <= part@.len(),
                before + part@ == joined(parts@.take(p + 1)),
                joined(parts@.take(p + 1)).len() < u64::MAX,
                numbered(before + part@.take(k as int), out@),
            decreases part@.len() - k,
        {
            let n = &part[k];
            let pos = out.len();
            proof {
                assert(pos + 1 <= joined(parts@.take(p + 1)).len());
            }
            let nth: u64 = pos as u64 + 1;
            let id = number(&n.rule_id, nth);
            let ghost old_out = out@;
            let observed = match &n.observed {
                Some(o) => Some(o.clone()),
                None => None,
            };
            out.push(Notice { rule_id: n.rule_id.clone(), id, record: n.record, observed });
            proof {
                let all = before + part@.take(k + 1);
                assert(all =~= (before + part@.take(k as int)).push(part@[k as int]));
                assert forall|i: int| 0 <= i < out@.len() implies (#[trigger] out@[i]).rule_id@ == all[i].rule_id@
                    && out@[i].record == all[i].record && observed_text(out@[i]) == observed_text(all[i])
                    && out@[i].id@ == notice_id(all[i].rule_id@, (i + 1) as nat) by {
                    if i < old_out.len() {
                        assert(out@[i] == old_out[i]);
                    }
                }
            }
            k += 1;
        }
        proof {
            assert(part@.take(part@.len() as int) =~= part@);
        }
        p += 1;
    }
    proof {
        assert(parts@.take(parts@.len() as int) =~= parts@);
    }
    K6Result { notices: out }
}

proof fn lemma_joined_prefix_len(parts: Seq<Vec<Notice>>, q: int)
    requires
        0 <= q <= parts.len(),
    ensures
        joined(parts.take(q)).len() <= joined(parts).len(),
    decreases parts.len() - q,
{
    if q < parts.len() {
        lemma_joined_prefix_len(parts, q + 1);
        assert(parts.take(q + 1).drop_last() =~= parts.take(q));
    } else {
        assert(parts.take(q) =~= parts);
    }
}

/// The rule code of a record rule.
pub open spec fn rule_code(rule: Rule) -> Seq<char> {
    match rule {
        Rule::UnnamedAgency => seq!['D', 'Q', '_', '0', '1', '0'],
        Rule::UnusedStop => seq!['S', 'T', 'P', '_', '0', '2', '0'],
        Rule::ChildlessStation => seq!['S', 'T', 'P', '_', '0', '3', '0'],
        Rule::DescriptionMissing => seq!['D', 'Q', '_', '0', '0', '3'],
        Rule::UrlMissing => seq!['D', 'Q', '_', '0', '0', '4'],
    }
}

/// The notices of record findings (not yet numbered: their ids are empty).
pub fn finding_notices(findings: &[Finding]) -> (r: Vec<Notice>)
    ensures
        r@.len() == findings@.len(),
        forall|i: int| 0 <= i < r@.len() ==> (#[trigger] r@[i]).rule_id@ == rule_code(findings@[i].rule)
            && r@[i].record == Some(findings@[i].record) && r@[i].id@.len() == 0 && r@[i].observed is None,
{
    let mut r: Vec<Notice> = Vec::new();
    let mut k: usize = 0;
    while k < findings.len()
        invariant
            k <= findings@.len(),
            r@.len() == k,
            forall|i: int| 0 <= i < k ==> (#[trigger] r@[i]).rule_id@ == rule_code(findings@[i].rule)
                && r@[i].record == Some(findings@[i].record) && r@[i].id@.len() == 0 && r@[i].observed is None,
        decreases findings@.len() - k,
    {
        let f = findings[k];
        let mut code = String::new();
        match f.rule {
            Rule::UnnamedAgency => {
                code.append("DQ_010");
                proof {
                    reveal_strlit("DQ_010");
                }
            },
            Rule::UnusedStop => {
                code.append("STP_020");
                proof {
                    reveal_strlit("STP_020");
                }
            },
            Rule::ChildlessStation => {
                code.append("STP_030");
                proof {
                    reveal_strlit("STP_030");
                }
            },
            Rule::DescriptionMissing => {
                code.append("DQ_003");
                proof {
                    reveal_strlit("DQ_003");
                }
            },
            Rule::UrlMissing => {
                code.append("DQ_004");
                proof {
                    reveal_strlit("DQ_004");
                }
            },
        }
        proof {
            assert(code@ =~= rule_code(f.rule));
        }
        r.push(Notice { rule_id: code, id: String::new(), record: Some(f.record), observed: None });
        k += 1;
    }
    r
}

} // verus!
